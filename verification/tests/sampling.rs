use ssd_llm::constraint::mask_logits;
use ssd_llm::sampler::{tail_free_filter, MirostatMode, Next, Penalty, Sampler, Scaling};
use ssd_llm::selection::{argmax, draw_index, top_ranked, Candidate};
use ssd_llm::single::Single;
use ssd_llm::transformer::{build_sampler, phase_inference_config, InferenceConfig};

fn single(value: f32) -> Single {
    Single { bits: value.to_bits() }
}

fn float(value: Single) -> f32 {
    f32::from_bits(value.bits)
}

fn singles(values: &[f32]) -> Vec<Single> {
    values.iter().map(|v| single(*v)).collect()
}

fn scores(candidates: &[Candidate]) -> Vec<f32> {
    candidates.iter().map(|c| float(c.1)).collect()
}

fn normalized(values: Vec<f32>) -> Vec<f32> {
    let sum: f32 = values.iter().sum();
    if sum > 0.0 {
        values.iter().map(|v| v / sum).collect()
    } else {
        values
    }
}

fn softmax(candidates: &[Candidate]) -> Vec<f32> {
    let values = scores(candidates);
    let max = values.iter().copied().fold(f32::NEG_INFINITY, f32::max);
    normalized(values.iter().map(|v| (v - max).exp()).collect())
}

fn running_sums(values: &[f32]) -> Vec<f32> {
    let mut sum = 0.0f32;
    values
        .iter()
        .map(|v| {
            sum += v;
            sum
        })
        .collect()
}

/// The total of the second differences of probabilities, and their running sums
/// divided by it.
fn curve(probs: &[f32]) -> (f32, Vec<f32>) {
    let first: Vec<f32> = probs.windows(2).map(|w| (w[0] - w[1]).abs()).collect();
    let second: Vec<f32> = first.windows(2).map(|w| (w[0] - w[1]).abs()).collect();
    let total: f32 = second.iter().sum();
    let shares: Vec<f32> = second.iter().map(|d| d / total).collect();
    (total, running_sums(&shares))
}

fn zipf_exponent(p1: f32, p2: f32) -> f32 {
    if p2 < 1e-10 {
        return 1.0;
    }
    (p1 / p2).max(1.0).log2().clamp(0.1, 10.0)
}

fn zipf_epsilon(s: f32, n: usize) -> f32 {
    if (s - 1.0).abs() < 1e-6 {
        (n as f32).ln()
    } else if s > 1.0 {
        (1..=n.min(1000)).map(|i| (i as f32).powf(-s)).sum()
    } else {
        (n as f32).powf(1.0 - s) / (1.0 - s)
    }
}

fn sample(s: &mut Sampler, logits: &[f32]) -> u32 {
    let mut next = s.sample(&singles(logits));
    loop {
        next = match next {
            Next::Token(t) => return t,
            Next::Scale => {
                let t = float(s.temperature);
                let scaled: Vec<f32> = logits.iter().map(|l| l / t).collect();
                s.scaled(&singles(&scaled))
            }
            Next::Relative(c) => {
                let probs = softmax(&c);
                let max = probs.iter().copied().fold(0.0f32, f32::max);
                s.relative(&c, &singles(&probs), single(float(s.min_p) * max))
            }
            Next::Curve(c) => {
                let (total, sums) = curve(&softmax(&c));
                s.curve(&c, single(total), &singles(&sums))
            }
            Next::Softmax(c) => {
                let probs = softmax(&c);
                s.weighted(&c, &singles(&probs))
            }
            Next::Sums(c) => {
                let sums = running_sums(&scores(&c));
                s.summed(&c, &singles(&sums))
            }
            Next::Width(c) => {
                let p = scores(&c);
                let e = zipf_exponent(p[0], p.get(1).copied().unwrap_or(1e-10));
                let width = (float(s.mirostat_mu).exp2() * zipf_epsilon(e, logits.len()))
                    .powf(1.0 / e);
                s.widened(&c, width.round() as usize)
            }
            Next::Surprise(c) => {
                let surprises: Vec<f32> =
                    scores(&c).iter().map(|p| -p.max(1e-10).log2()).collect();
                s.surprised(&c, &singles(&surprises))
            }
            Next::Draw(c, random) => {
                let probs = normalized(scores(&c));
                let sums = running_sums(&probs);
                let draw = (random as f64 / (1u64 << 53) as f64) as f32;
                let (token, p) = s.drawn(&c, &singles(&probs), &singles(&sums), single(draw));
                if let Some(p) = p {
                    let surprise = -float(p).log2();
                    let mu = float(s.mirostat_mu)
                        - float(s.mirostat_eta) * (surprise - float(s.mirostat_tau));
                    s.adapt(single(mu));
                }
                return token;
            }
        };
    }
}

fn penalize(s: &Sampler, logits: &mut [f32], previous: &[u32]) {
    let offset = single(float(s.repetition_penalty) - 1.0);
    for p in s.apply_penalties(&singles(logits), previous, offset) {
        match p.scaling {
            Scaling::Keep => {}
            Scaling::Divide => logits[p.index] /= float(s.repetition_penalty),
            Scaling::Multiply => logits[p.index] *= float(s.repetition_penalty),
        }
        logits[p.index] -= float(s.frequency_penalty) * p.count as f32;
        logits[p.index] -= float(s.presence_penalty);
    }
}

fn plain(temperature: f32) -> Sampler {
    Sampler::new(single(temperature), 40, single(0.9), 12_345)
}

fn penalized(temperature: f32, repetition: f32, frequency: f32, presence: f32) -> Sampler {
    Sampler::with_penalties(
        single(temperature),
        40,
        single(0.9),
        single(repetition),
        single(frequency),
        single(presence),
        12_345,
    )
}

fn with_min_p(temperature: f32, min_p: f32) -> Sampler {
    Sampler::with_min_p(
        single(temperature),
        40,
        single(0.9),
        single(min_p),
        single(1.0),
        single(0.0),
        single(0.0),
        12_345,
    )
}

fn with_tfs(temperature: f32, z: f32) -> Sampler {
    Sampler::with_tfs(
        single(temperature),
        40,
        single(0.9),
        single(z),
        single(1.0),
        single(0.0),
        single(0.0),
        12_345,
    )
}

fn mirostat(temperature: f32, mode: MirostatMode, tau: f32, eta: f32) -> Sampler {
    Sampler::with_mirostat(single(temperature), mode, single(tau), single(eta), 12_345)
}

#[test]
fn test_greedy_sampling() {
    let mut sampler = plain(0.0);
    let logits = vec![0.1, 0.5, 0.3, 0.9, 0.2];
    assert_eq!(sample(&mut sampler, &logits), 3);
}

#[test]
fn test_rng_advances() {
    let mut sampler = plain(1.0);
    let a = sampler.next_random();
    let b = sampler.next_random();
    assert_ne!(a, b, "RNG should produce different values");
}

#[test]
fn test_repetition_penalty() {
    let sampler = penalized(0.0, 2.0, 0.0, 0.0);
    let mut logits = vec![0.1, 0.5, 0.3, 0.9, 0.2];
    penalize(&sampler, &mut logits, &[3]);
    assert!((logits[3] - 0.45).abs() < 1e-5);
    assert!((logits[0] - 0.1).abs() < 1e-5);
}

#[test]
fn test_frequency_penalty() {
    let sampler = penalized(0.0, 1.0, 0.5, 0.0);
    let mut logits = vec![1.0, 2.0, 3.0];
    penalize(&sampler, &mut logits, &[2, 2, 2]);
    assert!((logits[2] - 1.5).abs() < 1e-5);
}

#[test]
fn test_presence_penalty() {
    let sampler = penalized(0.0, 1.0, 0.0, 1.0);
    let mut logits = vec![1.0, 2.0, 3.0];
    penalize(&sampler, &mut logits, &[1, 2, 2]);
    assert!((logits[1] - 1.0).abs() < 1e-5);
    assert!((logits[2] - 2.0).abs() < 1e-5);
    assert!((logits[0] - 1.0).abs() < 1e-5);
}

#[test]
fn test_min_p_filters_low_probability() {
    let mut sampler = with_min_p(0.0, 0.5);
    let logits = vec![0.1, 0.5, 0.3, 5.0, 0.2];
    assert_eq!(sample(&mut sampler, &logits), 3);
}

#[test]
fn test_min_p_zero_has_no_effect() {
    let mut sampler_no_minp = plain(0.0);
    let mut sampler_minp_zero = with_min_p(0.0, 0.0);
    let logits = vec![0.1, 0.5, 0.3, 0.9, 0.2];
    assert_eq!(
        sample(&mut sampler_no_minp, &logits),
        sample(&mut sampler_minp_zero, &logits)
    );
}

#[test]
fn test_tfs_filters_tail() {
    let mut sampler = with_tfs(0.0, 0.5);
    let logits = vec![0.1, 0.5, 0.3, 5.0, 0.2];
    assert_eq!(sample(&mut sampler, &logits), 3);
}

#[test]
fn test_tfs_disabled_when_one() {
    let mut sampler_no_tfs = plain(1.0);
    let mut sampler_tfs_one = with_tfs(1.0, 1.0);
    let logits = vec![1.0, 2.0, 3.0, 4.0, 5.0];
    let t1 = sample(&mut sampler_no_tfs, &logits);
    let t2 = sample(&mut sampler_tfs_one, &logits);
    assert!(t1 < 5);
    assert!(t2 < 5);
}

#[test]
fn test_tfs_filter_function() {
    let candidates: Vec<Candidate> = vec![
        (0, single(5.0)),
        (1, single(3.0)),
        (2, single(1.0)),
        (3, single(0.1)),
        (4, single(-2.0)),
    ];
    let (total, sums) = curve(&softmax(&candidates));
    let filtered = tail_free_filter(&candidates, single(total), &singles(&sums), single(0.5));
    assert!(!filtered.is_empty());
    assert!(filtered.len() <= candidates.len());
    assert_eq!(filtered[0].0, 0);
}

#[test]
fn test_mirostat_v1_samples_valid() {
    let mut sampler = mirostat(0.7, MirostatMode::V1, 5.0, 0.1);
    let logits = vec![0.1, 0.5, 0.3, 0.9, 0.2, 0.8, 0.4, 0.6];
    let token = sample(&mut sampler, &logits);
    assert!((token as usize) < logits.len());
}

#[test]
fn test_mirostat_v2_samples_valid() {
    let mut sampler = mirostat(0.7, MirostatMode::V2, 5.0, 0.1);
    let logits = vec![0.1, 0.5, 0.3, 0.9, 0.2, 0.8, 0.4, 0.6];
    let token = sample(&mut sampler, &logits);
    assert!((token as usize) < logits.len());
}

#[test]
fn test_mirostat_v2_adapts_mu() {
    let mut sampler = mirostat(0.7, MirostatMode::V2, 5.0, 0.1);
    let initial_mu = float(sampler.mirostat_mu);
    let logits = vec![0.1, 0.5, 0.3, 0.9, 0.2];
    sample(&mut sampler, &logits);
    let new_mu = float(sampler.mirostat_mu);
    assert!(
        (initial_mu - new_mu).abs() > 1e-6,
        "Mirostat mu should adapt: was {}, now {}",
        initial_mu,
        new_mu
    );
}

#[test]
fn test_mirostat_greedy_at_zero_temp() {
    let mut sampler = mirostat(0.0, MirostatMode::V2, 5.0, 0.1);
    let logits = vec![0.1, 0.5, 0.3, 0.9, 0.2];
    assert_eq!(sample(&mut sampler, &logits), 3);
}

#[test]
fn test_mirostat_v1_mu_tracks_tau() {
    let mut sampler = mirostat(0.7, MirostatMode::V1, 3.0, 0.3);
    let logits = vec![1.0, 2.0, 3.0, 4.0, 5.0, 6.0, 7.0, 8.0];
    for _ in 0..50 {
        sample(&mut sampler, &logits);
    }
    let mu = float(sampler.mirostat_mu);
    assert!(
        mu > -50.0 && mu < 50.0,
        "Mirostat v1 mu should stay bounded: {}",
        mu
    );
}

#[test]
fn test_no_penalties_noop() {
    let sampler = penalized(1.0, 1.0, 0.0, 0.0);
    let mut logits = vec![1.0, 2.0, 3.0];
    let original = logits.clone();
    penalize(&sampler, &mut logits, &[0, 1, 2]);
    assert_eq!(logits, original);
}

fn tokens(sampler: Sampler, logits: &[f32], n: usize) -> Vec<u32> {
    let mut sampler = sampler;
    (0..n).map(|_| sample(&mut sampler, logits)).collect()
}

#[test]
fn test_with_seed_deterministic() {
    let logits = vec![1.0, 2.0, 3.0, 4.0, 5.0, 6.0, 7.0, 8.0];
    let tokens1 = tokens(plain(1.0).with_seed(42), &logits, 20);
    let tokens2 = tokens(plain(1.0).with_seed(42), &logits, 20);
    assert_eq!(tokens1, tokens2, "Same seed should produce identical sequences");
}

#[test]
fn test_different_seeds_differ() {
    let logits = vec![1.0, 2.0, 3.0, 4.0, 5.0, 6.0, 7.0, 8.0];
    let tokens1 = tokens(plain(1.0).with_seed(42), &logits, 20);
    let tokens2 = tokens(plain(1.0).with_seed(99), &logits, 20);
    assert_ne!(tokens1, tokens2, "Different seeds should produce different sequences");
}

#[test]
fn test_seed_with_mirostat() {
    let logits = vec![1.0, 2.0, 3.0, 4.0, 5.0, 6.0, 7.0, 8.0];
    let tokens1 = tokens(mirostat(0.7, MirostatMode::V2, 5.0, 0.1).with_seed(42), &logits, 10);
    let tokens2 = tokens(mirostat(0.7, MirostatMode::V2, 5.0, 0.1).with_seed(42), &logits, 10);
    assert_eq!(tokens1, tokens2, "Seeded Mirostat should be deterministic");
}

#[test]
fn test_seed_with_min_p() {
    let logits = vec![1.0, 2.0, 3.0, 4.0, 5.0, 6.0, 7.0, 8.0];
    let tokens1 = tokens(with_min_p(0.8, 0.1).with_seed(123), &logits, 10);
    let tokens2 = tokens(with_min_p(0.8, 0.1).with_seed(123), &logits, 10);
    assert_eq!(tokens1, tokens2, "Seeded Min-P sampling should be deterministic");
}

#[test]
fn test_inference_config_default() {
    let config = InferenceConfig::default();
    assert!((float(config.temperature) - 0.7).abs() < 1e-6);
    assert_eq!(config.top_k, 40);
    assert!((float(config.top_p) - 0.9).abs() < 1e-6);
    assert_eq!(config.max_tokens, 512);
    assert!((float(config.min_p) - 0.0).abs() < 1e-6);
    assert!(config.seed.is_none());
    assert!((float(config.repetition_penalty) - 1.0).abs() < 1e-6);
    assert_eq!(config.mirostat, 0);
}

#[test]
fn test_build_sampler_with_min_p() {
    let config = InferenceConfig { min_p: single(0.1), ..Default::default() };
    let mut sampler = build_sampler(&config, 1);
    let logits = vec![1.0, 2.0, 3.0, 4.0, 5.0];
    let token = sample(&mut sampler, &logits);
    assert!((token as usize) < logits.len());
}

#[test]
fn test_build_sampler_with_seed_deterministic() {
    let config = InferenceConfig {
        seed: Some(42),
        temperature: single(1.0),
        ..Default::default()
    };
    let logits = vec![1.0, 2.0, 3.0, 4.0, 5.0, 6.0, 7.0, 8.0];
    let t1 = tokens(build_sampler(&config, 1), &logits, 10);
    let t2 = tokens(build_sampler(&config, 2), &logits, 10);
    assert_eq!(t1, t2, "Seeded build_sampler should be deterministic");
}

#[test]
fn test_build_sampler_mirostat_mode() {
    let config = InferenceConfig { mirostat: 2, ..Default::default() };
    let mut sampler = build_sampler(&config, 1);
    let logits = vec![1.0, 2.0, 3.0, 4.0];
    let token = sample(&mut sampler, &logits);
    assert!((token as usize) < logits.len());
}

#[test]
fn test_build_sampler_tfs() {
    let config = InferenceConfig { tfs_z: single(0.95), ..Default::default() };
    let mut sampler = build_sampler(&config, 1);
    let logits = vec![1.0, 2.0, 3.0, 4.0];
    let token = sample(&mut sampler, &logits);
    assert!((token as usize) < logits.len());
}

#[test]
fn constants_have_their_decimal_values() {
    assert_eq!(single(0.01).bits, ssd_llm::sampler::HUNDREDTH);
    assert_eq!(single(0.1).bits, ssd_llm::sampler::TENTH);
    assert_eq!(single(0.9).bits, ssd_llm::sampler::NINE_TENTHS);
    assert_eq!(single(1.0).bits, ssd_llm::sampler::ONE);
    assert_eq!(single(5.0).bits, ssd_llm::sampler::FIVE);
    assert_eq!(single(10.0).bits, ssd_llm::sampler::TEN);
    assert_eq!(single(1e-6).bits, ssd_llm::sampler::MILLIONTH);
    assert_eq!(single(1e-10).bits, ssd_llm::sampler::TINY);
    assert_eq!(single(1e-12).bits, ssd_llm::sampler::FLAT);
    assert_eq!(single(0.99999994).bits, ssd_llm::sampler::BELOW_ONE);
    assert_eq!(single(0.7).bits, ssd_llm::transformer::SEVEN_TENTHS);
}

#[test]
fn constructors_move_parameters_into_their_ranges() {
    assert_eq!(float(penalized(1.0, -3.0, 0.0, 0.0).repetition_penalty), 0.01);
    assert_eq!(float(with_min_p(1.0, 4.0).min_p), 1.0);
    assert_eq!(float(with_tfs(1.0, -1.0).tfs_z), 0.0);
    let m = mirostat(1.0, MirostatMode::V1, 3.5, 2.0);
    assert_eq!(float(m.mirostat_eta), 1.0);
    assert_eq!(float(m.mirostat_mu), 7.0);
    assert_eq!(float(mirostat(1.0, MirostatMode::V2, -1.5, 0.1).mirostat_tau), 0.0);
    assert_eq!(plain(1.0).rng_state, 12_345 ^ 0x517c_c1b7_2722_0a95);
}

#[test]
fn generator_follows_xorshift() {
    let mut s = plain(1.0);
    s.rng_state = 1;
    assert_eq!(s.next_random(), 1_082_269_761 >> 11);
    assert_eq!(s.rng_state, 1_082_269_761);
    assert_eq!(s.next_random(), 1_152_992_998_833_853_505 >> 11);
}

#[test]
fn ranking_is_descending_and_stable() {
    let ranked = top_ranked(&singles(&[1.0, 3.0, f32::NAN, 3.0, -1.0]), 4);
    let order: Vec<usize> = ranked.iter().map(|c| c.0).collect();
    assert_eq!(order, vec![1, 3, 0, 4]);
    assert_eq!(argmax(&singles(&[2.0, 5.0, 5.0, 1.0])), 2, "the last of equal maxima");
}

#[test]
fn min_p_drops_what_is_far_below_the_best() {
    let s = with_min_p(1.0, 0.5);
    let scaled = singles(&[0.0, 2.0, 1.9]);
    let c = match s.scaled(&scaled) {
        Next::Relative(c) => c,
        _ => panic!("min-p is on"),
    };
    let probs = softmax(&c);
    match s.relative(&c, &singles(&probs), single(0.5 * probs[0])) {
        Next::Softmax(kept) => {
            let ids: Vec<usize> = kept.iter().map(|k| k.0).collect();
            assert_eq!(ids, vec![1, 2]);
        }
        _ => panic!("the tail-free filter is off"),
    }
}

#[test]
fn a_draw_of_one_stays_below_one() {
    let s = plain(1.0);
    let c: Vec<Candidate> = vec![(7, single(0.5)), (8, single(0.5)), (9, single(0.0))];
    let probs = singles(&[0.5, 0.5, 0.0]);
    let sums = singles(&[0.5, 0.99999994, 0.99999994]);
    let (token, p) = s.drawn(&c, &probs, &sums, single(1.0));
    assert_eq!(token, 8);
    assert!(p.is_none());
}

#[test]
fn no_logits_give_token_zero() {
    assert_eq!(sample(&mut plain(1.0), &[]), 0);
}

#[test]
fn penalties_count_each_token_once() {
    let s = penalized(1.0, 1.5, 0.25, 0.0);
    let logits = singles(&[2.0, -1.0, 0.0]);
    let offset = single(0.5);
    let list = s.apply_penalties(&logits, &[1, 0, 1, 9, 1], offset);
    assert_eq!(
        list,
        vec![
            Penalty { index: 1, count: 3, scaling: Scaling::Multiply },
            Penalty { index: 0, count: 1, scaling: Scaling::Divide },
        ]
    );
}

#[test]
fn a_phase_keeps_sampling_parameters() {
    let base = InferenceConfig {
        temperature: single(0.3),
        stop_sequences: vec!["x".to_string()],
        seed: Some(9),
        ..Default::default()
    };
    let phase = phase_inference_config(&base, 64);
    assert_eq!(phase.max_tokens, 64);
    let small = InferenceConfig { max_tokens: 100, ..Default::default() };
    assert_eq!(phase_inference_config(&small, 512).max_tokens, 100, "the budget is a cap");
    assert_eq!(float(phase.temperature), 0.3);
    assert_eq!(phase.stop_sequences, vec!["x".to_string()]);
    assert_eq!(phase.seed, Some(9));
}

#[test]
fn what_has_no_probability_is_not_drawn() {
    let zero = single(0.0);
    let candidates: Vec<Candidate> = vec![(7, zero), (3, zero), (9, zero), (4, zero)];
    let sums = singles(&[0.5, 0.5, 1.0, 1.0]);
    for step in 0..=100 {
        let token = draw_index(&candidates, &sums, single(step as f32 / 100.0));
        assert_eq!(token, if step <= 50 { 7 } else { 9 });
    }
    assert_eq!(draw_index(&candidates, &sums, single(1.5)), 4, "above all sums the last");
}

#[test]
fn a_masked_token_is_never_sampled() {
    let allowed = [0u32, 1, 3, 4];
    let mut logits = singles(&[0.1, 0.5, 5.0, 3.0, 0.2]);
    mask_logits(&mut logits, &allowed);
    let masked: Vec<f32> = logits.iter().map(|l| float(*l)).collect();
    let mut greedy = Sampler::new(single(0.0), 40, single(0.9), 1);
    assert_eq!(sample(&mut greedy, &masked), 3);
    let samplers = vec![
        Sampler::new(single(2.0), 5, single(0.9), 1),
        Sampler::with_min_p(
            single(1.5),
            5,
            single(0.9),
            single(0.05),
            single(1.0),
            single(0.0),
            single(0.0),
            1,
        ),
        Sampler::with_tfs(
            single(1.5),
            5,
            single(0.9),
            single(0.95),
            single(1.0),
            single(0.0),
            single(0.0),
            1,
        ),
    ];
    for sampler in samplers {
        let mut s = sampler.with_seed(7);
        for _ in 0..500 {
            let token = sample(&mut s, &masked);
            assert!(allowed.contains(&token), "{} is masked", token);
        }
    }
}

#[test]
fn the_time_does_not_matter_with_a_seed() {
    let inputs: Vec<Vec<f32>> =
        (0..50).map(|i| (0..20).map(|t| ((i * 7 + t * 3) % 11) as f32 / 3.0).collect()).collect();
    for mode in [MirostatMode::V1, MirostatMode::V2] {
        let make = |nanos: u64| {
            Sampler::with_mirostat(single(1.0), mode, single(3.0), single(0.1), nanos).with_seed(42)
        };
        let (mut early, mut late) = (make(1), make(999));
        for logits in &inputs {
            assert_eq!(sample(&mut early, logits), sample(&mut late, logits));
        }
    }
    let make = |nanos: u64| Sampler::new(single(0.8), 10, single(0.9), nanos).with_seed(42);
    let (mut early, mut late) = (make(1), make(999));
    for logits in &inputs {
        assert_eq!(sample(&mut early, logits), sample(&mut late, logits));
    }
}
