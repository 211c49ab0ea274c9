use ssd_llm::constraint::{mask_logits, PrefixConstraint, SentinelDetector};
use ssd_llm::sampler::{Next, Sampler};
use ssd_llm::single::Single;

fn single(value: f32) -> Single {
    Single { bits: value.to_bits() }
}

fn singles(values: &[f32]) -> Vec<Single> {
    values.iter().map(|v| single(*v)).collect()
}

fn floats(values: &[Single]) -> Vec<f32> {
    values.iter().map(|v| f32::from_bits(v.bits)).collect()
}

#[test]
fn mask_logits_zeros_disallowed_tokens() {
    let mut logits = singles(&[1.0, 2.0, 3.0, 4.0, 5.0]);
    mask_logits(&mut logits, &[1, 3]);
    assert_eq!(floats(&logits)[0], f32::NEG_INFINITY, "token 0 not in allowed -> NEG_INF");
    assert_eq!(floats(&logits)[1], 2.0, "token 1 allowed -> unchanged");
    assert_eq!(floats(&logits)[2], f32::NEG_INFINITY, "token 2 not in allowed -> NEG_INF");
    assert_eq!(floats(&logits)[3], 4.0, "token 3 allowed -> unchanged");
    assert_eq!(floats(&logits)[4], f32::NEG_INFINITY, "token 4 not in allowed -> NEG_INF");
}

#[test]
fn mask_logits_empty_allowed_is_noop() {
    let mut logits = singles(&[1.0, 2.0, 3.0]);
    mask_logits(&mut logits, &[]);
    assert_eq!(floats(&logits), vec![1.0, 2.0, 3.0], "empty allowed -> logits untouched");
}

#[test]
fn mask_logits_all_allowed_is_noop() {
    let mut logits = singles(&[1.0, 2.0, 3.0]);
    mask_logits(&mut logits, &[0, 1, 2]);
    assert_eq!(floats(&logits), vec![1.0, 2.0, 3.0]);
}

#[test]
fn mask_logits_deduplicates_allowed() {
    let mut logits = singles(&[1.0, 2.0, 3.0]);
    // Duplicate allowed ID should not panic or corrupt
    mask_logits(&mut logits, &[1, 1, 1]);
    assert_eq!(floats(&logits)[0], f32::NEG_INFINITY);
    assert_eq!(floats(&logits)[1], 2.0);
    assert_eq!(floats(&logits)[2], f32::NEG_INFINITY);
}

#[test]
fn mask_logits_out_of_range_id_ignored() {
    let mut logits = singles(&[1.0, 2.0]);
    // Token ID 999 is beyond logits length - should not panic
    mask_logits(&mut logits, &[0, 999]);
    assert_eq!(floats(&logits)[0], 1.0, "token 0 allowed");
    assert_eq!(floats(&logits)[1], f32::NEG_INFINITY, "token 1 not in allowed");
}

#[test]
fn mask_then_sample_greedy_picks_allowed_argmax() {
    let sampler = Sampler::new(single(0.0), 40, single(0.9), 1);
    let mut logits = singles(&[0.1, 0.5, 5.0, 3.0, 0.2]); // token 2 is highest
    // Disallow token 2 - sampler should fall back to token 3
    mask_logits(&mut logits, &[0, 1, 3, 4]);
    let chosen = match sampler.sample(&logits) {
        Next::Token(t) => t,
        _ => panic!("a greedy sampler needs no arithmetic"),
    };
    assert_eq!(chosen, 3, "greedy should pick token 3 after token 2 is masked");
}

#[test]
fn prefix_constraint_single_token_options() {
    // Each option is a single token: [10], [20], [30]
    let pc = PrefixConstraint::new(vec![vec![10], vec![20], vec![30]]);
    let valid = pc.valid_next_tokens(&[]);
    assert_eq!(valid, vec![10, 20, 30], "at empty prefix all starts are valid");
    assert!(pc.is_complete(&[10]));
    assert!(pc.is_complete(&[20]));
    assert!(!pc.is_complete(&[99]));
}

#[test]
fn prefix_constraint_multi_token_option() {
    // "grep" might encode as [100, 200], "read_chunk" as [100, 300, 400]
    let pc = PrefixConstraint::new(vec![
        vec![100, 200],         // option A
        vec![100, 300, 400],    // option B (shares first token with A)
        vec![500],              // option C (unique start)
    ]);

    // At empty prefix: starts are 100 and 500
    let at_start = pc.valid_next_tokens(&[]);
    assert_eq!(at_start, vec![100, 500]);

    // After [100]: valid continuations are 200 (-> A) and 300 (-> B)
    let after_100 = pc.valid_next_tokens(&[100]);
    assert_eq!(after_100, vec![200, 300]);

    // After [100, 200]: option A is complete, no further tokens
    assert!(pc.valid_next_tokens(&[100, 200]).is_empty());
    assert!(pc.is_complete(&[100, 200]));

    // After [100, 300]: only 400 is valid (option B continues)
    let after_100_300 = pc.valid_next_tokens(&[100, 300]);
    assert_eq!(after_100_300, vec![400]);

    // Invalid prefix returns empty
    assert!(pc.valid_next_tokens(&[999]).is_empty());
}

#[test]
fn prefix_constraint_deduplicates_shared_next_tokens() {
    // Two options that share the same second token after different firsts - doesn't apply,
    // but two options sharing first AND second token should deduplicate next.
    let pc = PrefixConstraint::new(vec![
        vec![1, 2, 3],
        vec![1, 2, 4],
    ]);
    // After [1]: only token 2 is valid (both options agree)
    assert_eq!(pc.valid_next_tokens(&[1]), vec![2]);
    // After [1, 2]: tokens 3 and 4 are valid
    assert_eq!(pc.valid_next_tokens(&[1, 2]), vec![3, 4]);
}

#[test]
fn sentinel_fires_on_exact_match() {
    let mut det = SentinelDetector::new(vec![10, 20, 30]);
    assert!(!det.push(10));
    assert!(!det.push(20));
    assert!(det.push(30), "trigger should fire after full sequence");
}

#[test]
fn sentinel_does_not_fire_on_partial_match() {
    let mut det = SentinelDetector::new(vec![10, 20, 30]);
    assert!(!det.push(10));
    assert!(!det.push(20));
    // wrong third token
    assert!(!det.push(99));
}

#[test]
fn sentinel_sliding_window_handles_false_prefix() {
    // Push almost-trigger then correct trigger - should fire
    let mut det = SentinelDetector::new(vec![10, 20]);
    det.push(10);
    det.push(99); // wrong - window is [10, 99]
    det.push(10); // window slides to [99, 10]
    let fired = det.push(20); // window: [10, 20] - fires
    assert!(fired);
}

#[test]
fn sentinel_does_not_fire_before_enough_tokens() {
    let mut det = SentinelDetector::new(vec![5, 6, 7, 8]);
    // Push only 3 of 4 trigger tokens - must not fire
    assert!(!det.push(5));
    assert!(!det.push(6));
    assert!(!det.push(7));
}

#[test]
fn sentinel_reset_clears_state() {
    let mut det = SentinelDetector::new(vec![1, 2]);
    det.push(1); // partial match
    det.reset();
    // After reset, push(2) alone must not fire
    assert!(!det.push(2), "reset should clear partial match state");
}

#[test]
fn sentinel_single_token_trigger() {
    let mut det = SentinelDetector::new(vec![42]);
    assert!(!det.push(1));
    assert!(det.push(42));
    // Next non-matching token should not fire
    det.reset();
    assert!(!det.push(1));
}

#[test]
fn sentinel_empty_trigger_never_fires() {
    // Empty trigger is a caller error; must not produce false positives.
    let mut det = SentinelDetector::new(vec![]);
    assert!(!det.push(0), "empty trigger must never fire");
    assert!(!det.push(0));
    assert!(!det.matches());
}

#[test]
fn sentinel_integration_fires_on_trigger_ids() {
    let trigger = vec![10u32, 20, 30];
    let mut det = SentinelDetector::new(trigger.clone());
    assert!(!det.push(1));
    assert!(!det.push(2));
    assert!(!det.push(10));
    assert!(!det.push(20));
    assert!(det.push(30));
}

#[test]
fn prefix_constraint_narrows_to_valid_tools() {
    let tools = PrefixConstraint::new(vec![vec![100, 200], vec![300]]);
    let starts = tools.valid_next_tokens(&[]);
    assert!(starts.contains(&100));
    assert!(starts.contains(&300));
    assert_eq!(tools.valid_next_tokens(&[100]), vec![200]);
    assert!(tools.is_complete(&[100, 200]));
    assert!(tools.is_complete(&[300]));
}

#[test]
fn admitted_tokens_always_lead_to_an_option() {
    let options = vec![vec![1, 2, 3], vec![1, 2], vec![4, 5], vec![4, 5, 6, 7]];
    let pc = PrefixConstraint::new(options.clone());
    let mut open: Vec<Vec<u32>> = vec![vec![]];
    let mut reached: Vec<Vec<u32>> = Vec::new();
    while let Some(prefix) = open.pop() {
        let next = pc.valid_next_tokens(&prefix);
        assert!(!next.is_empty() || pc.is_complete(&prefix));
        if pc.is_complete(&prefix) {
            reached.push(prefix.clone());
        }
        for t in next {
            let mut longer = prefix.clone();
            longer.push(t);
            assert!(options.iter().any(|o| o.starts_with(&longer)));
            open.push(longer);
        }
    }
    assert_eq!(reached.len(), options.len());
}

#[test]
fn sentinel_sees_a_trigger_across_a_repeated_start() {
    let mut det = SentinelDetector::new(vec![1, 1, 2]);
    let fired: Vec<bool> = [1, 1, 1, 2, 1, 2].iter().map(|t| det.push(*t)).collect();
    assert_eq!(fired, vec![false, false, false, true, false, false]);
}

#[test]
fn masking_uses_negative_infinity() {
    let mut logits = singles(&[0.5, -0.0, 7.0]);
    mask_logits(&mut logits, &[1]);
    assert_eq!(logits[0].bits, 0xFF80_0000);
    assert_eq!(logits[1].bits, 0x8000_0000, "an allowed logit keeps its bits");
    assert_eq!(logits[2].bits, 0xFF80_0000);
}
