use ssd_llm::cuda::{gemv_cfg, Buffer, CudaGpu, GemvShape, GpuOp};
use ssd_llm::loader::{LoadError, MmapLoader};
use ssd_llm::model::{layer_tensor_name, GgmlType, GgufFile, TensorInfo};
use ssd_llm::prefetch::{touch_pages, PrefetchStrategy, Prefetcher};
use ssd_llm::single::Single;
use ssd_llm::streamer::{dequantize, half_to_single, CachedLayer, SsdStreamer, Weight};
use ssd_llm::transformer::{
    apply_lora_to_layer, batch_prefill, batch_prefill_lora, detect_moe_config, effective_layers,
    embed, find_tensor_in_layer, forward_pass_pub, generate, generate_streaming, is_gated,
    is_readable, layer_targets, lora_targets, model_shape, output_plan, replace_tensor,
    run_ffn_or_moe, streaming_layer_forward, table_row, tied_output, token_row, DecodeStep, Decoder, FeedForward,
    InferenceConfig, ModelError, MoeConfig, OutputPlan, PrefillStep,
};

fn plain(value: f32) -> Weight {
    Weight::Plain(Single { bits: value.to_bits() })
}

/// The number that a weight stands for.
fn number(w: &Weight) -> f32 {
    let f = |s: &Single| f32::from_bits(s.bits);
    match w {
        Weight::Plain(s) => f(s),
        Weight::Scaled { factor, code } => *code as f32 * f(factor),
        Weight::Shifted { d, scale, code, dmin, min } => {
            f(d) * *scale as f32 * *code as f32 - f(dmin) * *min as f32
        }
        Weight::Graded { d, scale, code } => f(d) * *scale as f32 * *code as f32,
    }
}

fn numbers(list: &[Weight]) -> Vec<f32> {
    list.iter().map(number).collect()
}

fn tensor(name: &str, dimensions: &[u64], offset: u64, values: usize) -> TensorInfo {
    TensorInfo {
        name: name.to_string(),
        dimensions: dimensions.to_vec(),
        dtype: GgmlType::F32,
        offset,
        size_bytes: 4 * values as u64,
    }
}

fn model(tensors: Vec<TensorInfo>) -> GgufFile {
    GgufFile {
        tensors,
        n_layers: 2,
        n_embd: 2,
        n_head: 1,
        n_head_kv: 1,
        vocab_size: 3,
        n_ctx: 16,
        is_moe: false,
        n_experts: 0,
        n_experts_used: 0,
        data_offset: 4,
    }
}

/// Four bytes of header, then the numbers 0, 1, 2, and so on.
fn image(count: usize) -> Vec<u8> {
    let mut bytes = vec![0xEE; 4];
    for i in 0..count {
        bytes.extend_from_slice(&(i as f32).to_le_bytes());
    }
    bytes
}

#[test]
fn tensor_data_is_bounds_checked() {
    let bytes = image(4);
    let loader = MmapLoader::new(&bytes, 4);
    assert_eq!(loader.file_size(), 20);
    assert_eq!(loader.get_tensor_data(4, 4).unwrap(), &1.0f32.to_le_bytes());
    assert_eq!(loader.get_tensor_data(0, 16).unwrap().len(), 16);
    assert!(matches!(
        loader.get_tensor_data(8, 9),
        Err(LoadError::OutOfBounds(12, 9, 20))
    ));
    assert_eq!(loader.advice_range(8, 9), (12, 9));
}

#[test]
fn half_precision_converts_exactly() {
    for h in 0..=u16::MAX {
        let want = half::f16::from_bits(h).to_f32();
        let got = f32::from_bits(half_to_single(h).bits);
        if want.is_nan() {
            assert!(got.is_nan());
        } else {
            assert_eq!(got.to_bits(), want.to_bits());
        }
    }
}

#[test]
fn plain_formats_decode() {
    let mut bytes = Vec::new();
    for v in [1.5f32, -2.0] {
        bytes.extend_from_slice(&v.to_le_bytes());
    }
    assert_eq!(numbers(&dequantize(&bytes, &GgmlType::F32, 2)), vec![1.5, -2.0]);
    let halves = [0x3C00u16, 0xC000];
    let bytes: Vec<u8> = halves.iter().flat_map(|h| h.to_le_bytes()).collect();
    assert_eq!(numbers(&dequantize(&bytes, &GgmlType::F16, 2)), vec![1.0, -2.0]);
    let brain = [0x3F80u16, 0xC040];
    let bytes: Vec<u8> = brain.iter().flat_map(|h| h.to_le_bytes()).collect();
    assert_eq!(numbers(&dequantize(&bytes, &GgmlType::BF16, 2)), vec![1.0, -3.0]);
    assert_eq!(
        numbers(&dequantize(&[1, 2, 3], &GgmlType::Other(32, 7), 3)),
        vec![0.0; 3]
    );
}

#[test]
fn eight_bit_blocks_decode() {
    let mut block = vec![0x00, 0x38];
    for j in 0..32i32 {
        block.push((j - 16) as i8 as u8);
    }
    let got = numbers(&dequantize(&block, &GgmlType::Q8_0, 32));
    let want: Vec<f32> = (0..32).map(|j| 0.5 * (j - 16) as f32).collect();
    assert_eq!(got, want);
    assert_eq!(numbers(&dequantize(&block[..33], &GgmlType::Q8_0, 32)), vec![0.0; 32]);
    let longer = numbers(&dequantize(&block, &GgmlType::Q8_0, 40));
    assert_eq!(longer[..32], want[..]);
    assert_eq!(longer[32..], [0.0; 8]);
}

#[test]
fn four_bit_blocks_decode() {
    let mut block = vec![0x00, 0x40];
    for j in 0..16u8 {
        block.push(j | ((15 - j) << 4));
    }
    let got = numbers(&dequantize(&block, &GgmlType::Q4_0, 32));
    let mut want = Vec::new();
    for j in 0..16i32 {
        want.push(2.0 * (j - 8) as f32);
        want.push(2.0 * (15 - j - 8) as f32);
    }
    assert_eq!(got, want);
}

#[test]
fn four_bit_super_blocks_decode() {
    let mut block = Vec::new();
    block.extend_from_slice(&0x3C00u16.to_le_bytes());
    block.extend_from_slice(&0x3800u16.to_le_bytes());
    let sc: Vec<u8> = (0..12u8).map(|i| i.wrapping_mul(37) ^ 0x5A).collect();
    block.extend_from_slice(&sc);
    let qs: Vec<u8> = (0..128u32).map(|i| (i * 29 % 251) as u8).collect();
    block.extend_from_slice(&qs);
    let got = numbers(&dequantize(&block, &GgmlType::Q4K, 256));
    for sb in 0..8usize {
        let (s, m) = if sb < 4 {
            (sc[sb] & 0x3F, sc[sb + 4] & 0x3F)
        } else {
            (
                (sc[sb + 4] & 0x0F) | ((sc[sb - 4] >> 6) << 4),
                (sc[sb + 4] >> 4) | ((sc[sb] >> 6) << 4),
            )
        };
        for l in 0..32usize {
            let byte = qs[(sb / 2) * 32 + l];
            let nibble = if sb % 2 == 1 { byte >> 4 } else { byte & 0x0F };
            let want = s as f32 * nibble as f32 - 0.5 * m as f32;
            assert_eq!(got[sb * 32 + l], want);
        }
    }
}

#[test]
fn six_bit_super_blocks_decode() {
    let ql: Vec<u8> = (0..128u32).map(|i| (i * 31 % 256) as u8).collect();
    let qh: Vec<u8> = (0..64u32).map(|i| (i * 57 % 256) as u8).collect();
    let scales: Vec<u8> = (0..16i32).map(|i| (i * 13 - 90) as i8 as u8).collect();
    let mut block = ql.clone();
    block.extend_from_slice(&qh);
    block.extend_from_slice(&scales);
    block.extend_from_slice(&0x3C00u16.to_le_bytes());
    let got = numbers(&dequantize(&block, &GgmlType::Q6K, 256));
    for half in 0..2usize {
        for l in 0..32usize {
            let (a, b) = (ql[half * 64 + l], ql[half * 64 + l + 32]);
            let h = qh[half * 32 + l];
            let codes = [
                (a & 0x0F) | ((h & 3) << 4),
                (b & 0x0F) | (((h >> 2) & 3) << 4),
                (a >> 4) | (((h >> 4) & 3) << 4),
                (b >> 4) | (((h >> 6) & 3) << 4),
            ];
            for (q, code) in codes.iter().enumerate() {
                let scale = scales[half * 8 + l / 16 + 2 * q] as i8 as f32;
                let want = scale * (*code as i32 - 32) as f32;
                assert_eq!(got[half * 128 + l + 32 * q], want);
            }
        }
    }
}

#[test]
fn rows_are_cut_from_a_tensor() {
    let bytes = image(6);
    let streamer = SsdStreamer::new(MmapLoader::new(&bytes, 4), 1000);
    let t = tensor("token_embd.weight", &[2, 3], 0, 6);
    let rows = streamer.load_tensor_rows(&t, &[2, 0, 7], 2).unwrap();
    let got: Vec<Vec<f32>> = rows.iter().map(|r| numbers(r)).collect();
    assert_eq!(got, vec![vec![4.0, 5.0], vec![0.0, 1.0], vec![0.0, 0.0]]);
    let whole = streamer.load_tensor_f32(&t).unwrap();
    assert_eq!(numbers(&whole), vec![0.0, 1.0, 2.0, 3.0, 4.0, 5.0]);
    assert_eq!(table_row(&whole, 2, 2).map(|r| numbers(&r)), Some(vec![4.0, 5.0]));
    assert!(table_row(&whole, 3, 2).is_none());
    let outside = tensor("x", &[2, 3], 8, 6);
    assert!(streamer.load_tensor_rows(&outside, &[0], 2).is_err());
}

#[test]
fn quantized_rows_that_are_not_aligned_are_decoded_first() {
    let mut block = vec![0x00, 0x3C];
    block.extend((0..32).map(|j| j as u8));
    let streamer = SsdStreamer::new(MmapLoader::new(&block, 0), 0);
    let t = TensorInfo {
        name: "t".to_string(),
        dimensions: vec![16, 2],
        dtype: GgmlType::Q8_0,
        offset: 0,
        size_bytes: 34,
    };
    let rows = streamer.load_tensor_rows(&t, &[1], 16).unwrap();
    let want: Vec<f32> = (16..32).map(|j| j as f32).collect();
    assert_eq!(numbers(&rows[0]), want);
}

#[test]
fn a_layer_holds_its_tensors() {
    let bytes = image(8);
    let gguf = model(vec![
        tensor("blk.1.attn_norm.weight", &[2], 0, 2),
        tensor("blk.10.attn_norm.weight", &[2], 8, 2),
        tensor("blk.1.ffn_norm.weight", &[2], 16, 2),
    ]);
    let streamer = SsdStreamer::new(MmapLoader::new(&bytes, 4), 1000);
    let layer = streamer.load_layer(&gguf, 1).unwrap();
    assert_eq!((layer.layer_idx, layer.size_bytes), (1, 16));
    let found = find_tensor_in_layer(&layer, "ffn_norm.weight", 1).unwrap();
    assert_eq!(numbers(found), vec![4.0, 5.0]);
    assert!(find_tensor_in_layer(&layer, "attn_norm.weight", 10).is_none());
    assert_eq!(streamer.layer_ranges(&gguf, 1), vec![(4, 8), (20, 8)]);
    assert_eq!(layer_tensor_name(12, "attn_q.weight"), "blk.12.attn_q.weight");
    match streamer.load_named_tensor_f32(&gguf, "absent") {
        Err(LoadError::NotFound(name)) => assert_eq!(name, "absent"),
        _ => panic!("there is no such tensor"),
    }
}

#[test]
fn layers_ahead_are_fetched_and_layers_behind_released() {
    let p = Prefetcher::new(PrefetchStrategy::LookAhead(3));
    assert_eq!(p.on_layer_start(4, 7, &[6]), vec![5]);
    assert_eq!(p.on_layer_start(0, 10, &[]), vec![1, 2, 3]);
    assert_eq!(p.on_layer_done(1), None);
    assert_eq!(p.on_layer_done(5), Some(3));
    let b = Prefetcher::new(PrefetchStrategy::BackgroundTouch(1));
    assert_eq!(b.on_layer_start(2, 9, &[]), vec![3]);
    let off = Prefetcher::new(PrefetchStrategy::Off);
    assert!(off.on_layer_start(0, 10, &[]).is_empty());
    assert_eq!(off.on_layer_done(5), None);
    assert!(matches!(PrefetchStrategy::default(), PrefetchStrategy::LookAhead(1)));
}

#[test]
fn each_page_is_touched_once() {
    let mut data = vec![9u8; 4096 * 2 + 1];
    data[0] = 1;
    data[4096] = 2;
    data[8192] = 4;
    assert_eq!(touch_pages(&data), 7);
    assert_eq!(touch_pages(&[]), 0);
}

#[test]
fn a_prefill_takes_layer_by_layer() {
    let gguf = model(vec![]);
    let steps = batch_prefill(&gguf, 2, 5, None);
    assert_eq!(
        steps,
        vec![
            PrefillStep::Begin(0),
            PrefillStep::Forward { layer: 0, token: 0, position: 5 },
            PrefillStep::Forward { layer: 0, token: 1, position: 6 },
            PrefillStep::End(0),
            PrefillStep::Begin(1),
            PrefillStep::Forward { layer: 1, token: 0, position: 5 },
            PrefillStep::Forward { layer: 1, token: 1, position: 6 },
            PrefillStep::End(1),
        ]
    );
    assert!(batch_prefill(&gguf, 0, 0, None).is_empty());
    assert_eq!(forward_pass_pub(&gguf, 5, None), batch_prefill(&gguf, 1, 5, None));
    assert_eq!(effective_layers(5, None), 5);
    assert_eq!(effective_layers(5, Some("3")), 3);
    assert_eq!(effective_layers(5, Some("9")), 5);
    assert_eq!(effective_layers(5, Some("three")), 5);
}

#[test]
fn a_model_needs_dimensions() {
    let mut gguf = model(vec![]);
    let shape = model_shape(&gguf).unwrap();
    assert_eq!((shape.n_embd, shape.head_dim, shape.vocab_size), (2, 2, 3));
    gguf.n_layers = 0;
    assert_eq!(
        model_shape(&gguf),
        Err(ModelError::Invalid { n_embd: 2, n_layers: 0 })
    );
}

#[test]
fn a_layer_pass_uses_the_tensors_that_exist() {
    let bytes = image(40);
    let mut list = vec![
        tensor("blk.0.attn_norm.weight", &[2], 0, 2),
        tensor("blk.0.attn_q.weight", &[2, 3], 8, 6),
        tensor("blk.0.attn_k.weight", &[2, 1], 32, 2),
        tensor("blk.0.attn_v.weight", &[2, 1], 40, 2),
        tensor("blk.0.attn_output.weight", &[3, 2], 48, 6),
        tensor("blk.0.ffn_gate.weight", &[2, 4], 72, 8),
        tensor("blk.0.ffn_up.weight", &[2, 4], 72, 8),
    ];
    let gguf = model(list.clone_all());
    let streamer = SsdStreamer::new(MmapLoader::new(&bytes, 4), 0);
    let plan = streaming_layer_forward(&gguf, &streamer, 0, 2).unwrap();
    assert_eq!(plan.attn_norm.map(|w| numbers(&w)), Some(vec![0.0, 1.0]));
    assert!(plan.ffn_norm.is_none());
    assert!(plan.feed.is_none(), "one projection is missing");
    let attention = plan.attention.unwrap();
    assert_eq!((attention.q_dim, attention.kv_dim), (3, 1));
    assert_eq!(attention.key.raw, &bytes[36..44]);
    assert!(attention.q_norm.is_none());
    list.push(tensor("blk.0.ffn_down.weight", &[4, 2], 1000, 8));
    let gguf = model(list.clone_all());
    assert!(matches!(
        streaming_layer_forward(&gguf, &streamer, 0, 2),
        Err(LoadError::OutOfBounds(1004, 32, 164))
    ));
}

/// Copies of tensors, which are not `Clone`.
trait CloneAll {
    fn clone_all(&self) -> Vec<TensorInfo>;
}

impl CloneAll for Vec<TensorInfo> {
    fn clone_all(&self) -> Vec<TensorInfo> {
        self.iter()
            .map(|t| TensorInfo {
                name: t.name.clone(),
                dimensions: t.dimensions.clone(),
                dtype: t.dtype,
                offset: t.offset,
                size_bytes: t.size_bytes,
            })
            .collect()
    }
}

#[test]
fn a_generation_is_prepared() {
    let bytes = image(6);
    let gguf = model(vec![tensor("token_embd.weight", &[2, 3], 0, 6)]);
    let streamer = SsdStreamer::new(MmapLoader::new(&bytes, 4), 0);
    let config = InferenceConfig { max_tokens: 7, seed: Some(1), ..Default::default() };
    let plan = generate(&gguf, &streamer, &[1, 2], &config, 9, Some("1"), 0).unwrap();
    let rows: Vec<Vec<f32>> = plan.rows.iter().map(|r| numbers(r)).collect();
    assert_eq!(rows, vec![vec![2.0, 3.0], vec![4.0, 5.0]]);
    assert_eq!(plan.steps, batch_prefill(&gguf, 2, 0, Some("1")));
    assert_eq!((plan.decoder.position, plan.decoder.remaining), (2, 7));
    let streamed = generate_streaming(&gguf, &streamer, &[1, 9], &config, 9, None, 0).unwrap();
    let rows: Vec<Vec<f32>> = streamed.rows.iter().map(|r| numbers(r)).collect();
    assert_eq!(rows, vec![vec![2.0, 3.0], vec![0.0, 0.0]]);
    assert_eq!(streamed.steps, batch_prefill(&gguf, 2, 0, None));
    let embedding = embed(&gguf, &streamer, &[0], None).unwrap();
    assert_eq!(numbers(&embedding.rows[0]), vec![0.0, 1.0]);
    assert!(embedding.norm.is_none());
    let mut broken = model(vec![]);
    broken.n_embd = 0;
    assert!(generate(&broken, &streamer, &[1], &config, 9, None, 0).is_err());
    assert!(generate_streaming(&broken, &streamer, &[1], &config, 9, None, 0).is_err());
    assert!(embed(&broken, &streamer, &[1], None).is_err());
}

#[test]
fn decoding_stops_at_its_budget_or_an_end_token() {
    let mut d = Decoder::new(3, 2, 50);
    assert_eq!(d.poll(false), DecodeStep::Sample);
    assert_eq!(d.accept(7), Some(3));
    d.advance(7);
    assert_eq!(d.poll(false), DecodeStep::Sample);
    assert_eq!(d.accept(8), Some(4));
    d.advance(8);
    assert_eq!(d.poll(false), DecodeStep::Stop);
    assert_eq!(d.generated, vec![7, 8]);
    assert!(!d.done);
    let mut full = Decoder::new(0, 2, 50);
    assert_eq!(full.poll(true), DecodeStep::Stop);
    assert!(full.done);
    for end in [0, 50] {
        let mut d = Decoder::new(0, 2, 50);
        assert_eq!(d.accept(end), None);
        assert_eq!(d.poll(false), DecodeStep::Stop);
    }
}

#[test]
fn a_decoder_reads_the_model() {
    let bytes = image(8);
    let gguf = model(vec![
        tensor("token_embd.weight", &[2, 3], 0, 6),
        tensor("output_norm.weight", &[2], 24, 2),
    ]);
    let streamer = SsdStreamer::new(MmapLoader::new(&bytes, 4), 0);
    let mut d = Decoder::new(4, 5, 50);
    match d.next_logits(&gguf, &streamer, false) {
        Some(OutputPlan::Normed(n, w)) => {
            assert_eq!(numbers(&n), vec![6.0, 7.0]);
            assert_eq!(w.len(), 6, "the embeddings stand in for the output");
        }
        _ => panic!("the model has a norm and an output"),
    }
    let pass = d.next_token(2, &gguf, &streamer, Some("1")).unwrap();
    assert_eq!(pass.row.map(|r| numbers(&r)), Some(vec![4.0, 5.0]));
    assert_eq!(pass.steps, forward_pass_pub(&gguf, 4, Some("1")));
    assert_eq!((d.position, d.remaining, d.generated.len()), (4, 5, 0), "not recorded yet");
    d.advance(2);
    let pass = d.next_token(30, &gguf, &streamer, None).unwrap();
    assert!(pass.row.is_none(), "the table does not hold the token");
    d.advance(30);
    assert_eq!(d.generated, vec![2, 30]);
    assert!(d.next_token(50, &gguf, &streamer, None).is_none());
    assert!(d.next_logits(&gguf, &streamer, false).is_none());

    let mut tied = Decoder::new(4, 5, 50);
    let output = tied.decode_logits(&gguf, &streamer, false).unwrap().unwrap();
    assert_eq!(numbers(&output.norm), vec![6.0, 7.0]);
    assert_eq!(output.matrix.raw.len(), 24);
    let pass = tied.decode_token(1, &gguf, &streamer, None).unwrap();
    assert_eq!(pass.row.map(|r| numbers(&r)), Some(vec![2.0, 3.0]));
    assert!(token_row(&model(vec![]), &streamer, 1, 2).is_none());
    assert!(tied_output(&model(vec![]), &streamer).is_none());
    assert!(matches!(output_plan(&model(vec![]), &streamer), OutputPlan::Zero));
}

#[test]
fn experts_are_used_when_all_are_there() {
    let bytes = image(20);
    let names = [
        "blk.0.ffn_gate_inp.weight",
        "blk.0.ffn_gate.0.weight",
        "blk.0.ffn_up.0.weight",
        "blk.0.ffn_down.0.weight",
        "blk.0.ffn_gate.weight",
        "blk.0.ffn_up.weight",
        "blk.0.ffn_down.weight",
    ];
    let list: Vec<TensorInfo> = names
        .iter()
        .enumerate()
        .map(|(i, n)| tensor(n, &[1], 4 * i as u64, 1))
        .collect();
    let mut gguf = model(list);
    let streamer = SsdStreamer::new(MmapLoader::new(&bytes, 4), 0);
    let layer = streamer.load_layer(&gguf, 0).unwrap();
    let one = MoeConfig { n_experts: 1, n_experts_used: 1 };
    match run_ffn_or_moe(&layer, 0, Some(one)) {
        FeedForward::Experts { gate, experts } => {
            assert_eq!(numbers(gate), vec![0.0]);
            assert_eq!(numbers(experts[0].w_down), vec![3.0]);
        }
        _ => panic!("the expert is there"),
    }
    let two = MoeConfig { n_experts: 2, n_experts_used: 1 };
    match run_ffn_or_moe(&layer, 0, Some(two)) {
        FeedForward::Dense { gate, up, down } => {
            assert_eq!(numbers(gate), vec![4.0]);
            assert_eq!(numbers(up), vec![5.0]);
            assert_eq!(numbers(down), vec![6.0]);
        }
        _ => panic!("an expert is missing"),
    }
    assert!(matches!(run_ffn_or_moe(&layer, 1, None), FeedForward::Missing));
    assert_eq!(detect_moe_config(&gguf, true), None);
    gguf.is_moe = true;
    gguf.n_experts = 8;
    gguf.n_experts_used = 2;
    assert_eq!(
        detect_moe_config(&gguf, true),
        Some(MoeConfig { n_experts: 8, n_experts_used: 2 })
    );
    assert_eq!(detect_moe_config(&gguf, false), None);
}

#[test]
fn adapters_change_the_tensors_they_name() {
    let names: Vec<String> = ["a", "b", "c"].iter().map(|s| s.to_string()).collect();
    let adapters: Vec<String> = ["c", "x", "a"].iter().map(|s| s.to_string()).collect();
    assert_eq!(lora_targets(&names, &adapters), vec![0, 2]);
    let tensors = names.iter().map(|n| tensor(n, &[1], 0, 1)).collect();
    let plan = batch_prefill_lora(&model(tensors), 1, 0, Some("1"), &adapters);
    assert_eq!(plan.adapted, vec![0, 2]);
    assert_eq!(
        plan.steps,
        vec![
            PrefillStep::Begin(0),
            PrefillStep::Forward { layer: 0, token: 0, position: 0 },
            PrefillStep::End(0)
        ]
    );
}

#[test]
fn adapting_a_cached_layer_changes_the_named_tensors_only() {
    let bytes = image(8);
    let names = ["blk.0.attn_q.weight", "blk.0.attn_k.weight", "blk.0.ffn_up.weight"];
    let list = names.iter().enumerate().map(|(i, n)| tensor(n, &[2], 8 * i as u64, 2)).collect();
    let gguf = model(list);
    let streamer = SsdStreamer::new(MmapLoader::new(&bytes, 4), 0);
    let mut layer = streamer.load_layer(&gguf, 0).unwrap();
    let size = layer.size_bytes;
    let adapters: Vec<String> =
        ["blk.0.ffn_up.weight", "blk.1.attn_q.weight", "blk.0.attn_q.weight", "blk.0.ffn_up.weight"]
            .iter()
            .map(|s| s.to_string())
            .collect();
    let targets = layer_targets(&layer, &adapters);
    assert_eq!(targets, vec!["blk.0.ffn_up.weight", "blk.0.attn_q.weight"]);
    let values = vec![vec![plain(9.0), plain(8.0)], vec![plain(7.0), plain(6.0)]];
    apply_lora_to_layer(&mut layer, &targets, values);
    let read = |suffix: &str, l: &CachedLayer| find_tensor_in_layer(l, suffix, 0).map(|v| numbers(v));
    assert_eq!(read("attn_q.weight", &layer), Some(vec![7.0, 6.0]));
    assert_eq!(read("attn_k.weight", &layer), Some(vec![2.0, 3.0]));
    assert_eq!(read("ffn_up.weight", &layer), Some(vec![9.0, 8.0]));
    assert!(find_tensor_in_layer(&layer, "attn_q.weight", 1).is_none());
    assert_eq!((layer.layer_idx, layer.size_bytes, layer.tensors.len()), (0, size, 3));
    replace_tensor(&mut layer, "blk.0.attn_k.weight", vec![plain(1.0), plain(1.5)]);
    assert_eq!(read("attn_k.weight", &layer), Some(vec![1.0, 1.5]));
    assert_eq!(read("attn_q.weight", &layer), Some(vec![7.0, 6.0]));
    assert_eq!((layer.layer_idx, layer.size_bytes), (0, size));
}

#[test]
fn the_end_of_a_generation_is_final() {
    let bytes = image(8);
    let gguf = model(vec![tensor("token_embd.weight", &[2, 3], 0, 6)]);
    let streamer = SsdStreamer::new(MmapLoader::new(&bytes, 4), 0);
    let mut ended = Decoder::new(0, 5, 50);
    assert!(ended.next_logits(&gguf, &streamer, false).is_some());
    assert!(ended.next_token(50, &gguf, &streamer, None).is_none());
    let mut full = Decoder::new(0, 5, 50);
    assert!(full.next_logits(&gguf, &streamer, true).is_none());
    let mut spent = Decoder::new(0, 1, 50);
    assert!(spent.next_logits(&gguf, &streamer, false).is_some());
    assert!(spent.next_token(2, &gguf, &streamer, None).is_some());
    spent.advance(2);
    assert_eq!(spent.generated, vec![2]);
    for d in [&mut ended, &mut full, &mut spent] {
        for _ in 0..3 {
            assert!(d.next_logits(&gguf, &streamer, false).is_none(), "an end stays one");
        }
    }
}

#[test]
fn device_memory_stays_within_its_budget() {
    let mut gpu = CudaGpu::new(100, true);
    assert!(gpu.upload("a", 20, 4, 5, true));
    assert_eq!(gpu.vram_remaining(), 20);
    assert!(!gpu.upload("b", 6, 2, 3, true), "24 bytes do not fit");
    assert!(!gpu.upload("b", 5, 1, 5, false), "the device refused");
    assert!(gpu.upload("b", 5, 1, 5, true));
    assert_eq!(gpu.vram_remaining(), 0);
    assert!(gpu.has("a") && gpu.has("b") && !gpu.has("c"));
}

fn uploads(ops: &[GpuOp]) -> usize {
    ops.iter().filter(|o| matches!(o, GpuOp::Upload(_))).count()
}

fn downloads(ops: &[GpuOp]) -> usize {
    ops.iter().filter(|o| matches!(o, GpuOp::Download(_))).count()
}

#[test]
fn products_upload_their_input_once() {
    let mut gpu = CudaGpu::new(10_000, true);
    gpu.upload("q", 12, 4, 3, true);
    gpu.upload("k", 6, 2, 3, true);
    gpu.upload("v", 6, 2, 3, true);
    gpu.upload("gate", 15, 5, 3, true);
    gpu.upload("up", 15, 5, 3, true);
    gpu.upload("down", 15, 3, 5, true);
    assert_eq!(
        gpu.sgemv("q").unwrap(),
        vec![
            GpuOp::Allocate(Buffer::X(3)),
            GpuOp::Allocate(Buffer::Y(4)),
            GpuOp::Allocate(Buffer::Host(4)),
            GpuOp::Upload(Buffer::X(3)),
            GpuOp::Multiply {
                matrix: 0,
                input: Buffer::X(3),
                output: Buffer::Y(4),
                shape: GemvShape { m: 3, n: 4, lda: 3 },
            },
            GpuOp::Download(4),
        ]
    );
    for b in [Buffer::X(3), Buffer::Y(4), Buffer::Host(4)] {
        gpu.allocated(b);
    }
    assert_eq!(gpu.sgemv("q").unwrap().len(), 3, "buffers are reused");
    let qkv = gpu.sgemv_qkv("q", "k", "v").unwrap();
    assert_eq!((uploads(&qkv), downloads(&qkv)), (1, 3));
    let gate_up = gpu.sgemv_gate_up("gate", "up").unwrap();
    assert_eq!((uploads(&gate_up), downloads(&gate_up)), (1, 2));
    let ffn = gpu.ffn_fused("gate", "up", "down").unwrap();
    assert_eq!((uploads(&ffn), downloads(&ffn)), (1, 1));
    assert!(ffn.contains(&GpuOp::Activate(5)));
    assert!(gpu.sgemv("absent").is_none());
    assert!(gpu.sgemv_gate_up("gate", "absent").is_none());
    assert!(gpu.sgemv_qkv("q", "k", "absent").is_none());
    assert!(gpu.ffn_fused("gate", "absent", "down").is_none());
    assert_eq!(gemv_cfg(3, 4), GemvShape { m: 3, n: 4, lda: 3 });
    let mut plain_gpu = CudaGpu::new(10_000, false);
    plain_gpu.upload("gate", 15, 5, 3, true);
    plain_gpu.upload("up", 15, 5, 3, true);
    plain_gpu.upload("down", 15, 3, 5, true);
    assert!(plain_gpu.ffn_fused("gate", "up", "down").is_none(), "no kernel");
}

#[test]
fn plain_weights_are_their_numbers() {
    assert_eq!(number(&plain(-0.25)), -0.25);
}

#[test]
fn model_errors_are_put_in_words() {
    let bytes = image(4);
    let loader = MmapLoader::new(&bytes, 0);
    assert_eq!(
        loader.get_tensor_data(8, 100).unwrap_err().message(),
        format!("Tensor data out of bounds: offset=8, size=100, file_len={}", bytes.len())
    );
    let streamer = SsdStreamer::new(loader, 0);
    assert_eq!(
        streamer.load_named_tensor_f32(&model(vec![]), "x").unwrap_err().message(),
        "Tensor not found: x"
    );
    assert_eq!(
        ModelError::Invalid { n_embd: 0, n_layers: 3 }.message(),
        "Invalid model: n_embd=0, n_layers=3"
    );
}

#[test]
fn unreadable_tensors_are_noticed() {
    let bytes = image(8);
    let small = model(vec![tensor("blk.0.ffn_gate.weight", &[2, 4], 0, 8)]);
    let streamer = SsdStreamer::new(MmapLoader::new(&bytes, 0), 0);
    assert!(is_readable(&small, &streamer));
    let large = model(vec![tensor("x", &[u64::MAX, u64::MAX], 0, 8)]);
    assert!(!is_readable(&large, &streamer));
    assert!(is_gated(&small, &streamer, 0));
}
