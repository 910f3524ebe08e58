//! Random differences, sampled tallies and trails, and the weight summary.

use kgrtc::analyzer::{connection_weights_and_sources, weight_summary};
use kgrtc::cipher::{round_transform_no_key, CipherContext, GeneratedTransformer, BLOCK_SIZE, ROUNDS};
use kgrtc::sampling::{
    differential_trail, random_difference, round_expansion_tally, round_output_activity, sampled_trail_tally,
    tally_counts, tally_trails, trail_from, transformer_expansion_tally, transformer_output_activity,
    ActivityTally,
};

fn nonzero(v: &[u8]) -> usize {
    v.iter().filter(|&&b| b != 0).count()
}

#[test]
fn random_differences_have_the_requested_activity() {
    for size in [1usize, 8, 16] {
        for active_in in 0..=size + 3 {
            let delta = random_difference(size, active_in);
            assert_eq!(delta.len(), size);
            assert_eq!(nonzero(&delta), active_in.min(size));
        }
    }
    assert!(random_difference(0, 5).is_empty());
}

#[test]
fn tally_of_known_counts() {
    let t = tally_counts(&[3, 0, 5, 1, 0]);
    assert_eq!(t, ActivityTally { min_active_out: 0, max_active_out: 5, sum_active_out: 9, zero_output_count: 2 });
    let empty = tally_counts(&[]);
    assert_eq!(empty, ActivityTally { min_active_out: usize::MAX, max_active_out: 0, sum_active_out: 0, zero_output_count: 0 });
}

#[test]
fn tally_of_known_trails() {
    let traces = vec![vec![4, 16, 16], vec![9, 12, 16], vec![2, 16, 16]];
    let t = tally_trails(&traces, 3);
    assert_eq!(t.per_round_min, vec![2, 12, 16]);
    assert_eq!(t.per_round_max, vec![9, 16, 16]);
    assert_eq!(t.per_round_sum, vec![15, 44, 48]);
    assert_eq!(t.min_full_active_round, Some(3));
    let none = tally_trails(&vec![vec![16, 3]], 2);
    assert_eq!(none.min_full_active_round, Some(1));
    let never = tally_trails(&vec![vec![15, 3]], 2);
    assert_eq!(never.min_full_active_round, None);
    let no_trials = tally_trails(&Vec::new(), 2);
    assert_eq!(no_trials.per_round_min, vec![usize::MAX, usize::MAX]);
    assert_eq!(no_trials.min_full_active_round, None);
}

#[test]
fn trail_matches_round_by_round_propagation() {
    let ctx = CipherContext::new(&vec![3u8; 32]).unwrap();
    let base: Vec<u8> = (0u8..16).map(|i| i.wrapping_mul(29)).collect();
    let mut delta = vec![0u8; 16];
    delta[5] = 0x40;
    let trace = trail_from(&ctx, &base, &delta, ROUNDS);
    assert_eq!(trace.len(), ROUNDS);
    let mut a = base.clone();
    let mut b: Vec<u8> = base.iter().zip(&delta).map(|(x, y)| x ^ y).collect();
    for r in 0..ROUNDS {
        a = round_transform_no_key(&a, &ctx, r);
        b = round_transform_no_key(&b, &ctx, r);
        let d: Vec<u8> = a.iter().zip(&b).map(|(x, y)| x ^ y).collect();
        assert_eq!(trace[r], nonzero(&d));
    }
    let flat = trail_from(&ctx, &base, &vec![0u8; 16], 5);
    assert_eq!(flat, vec![0usize; 5]);
    assert_eq!(round_output_activity(&ctx, 0, &base, &delta), trace[0]);
}

#[test]
fn sampled_statistics_stay_within_the_block() {
    let ctx = CipherContext::new(&vec![5u8; 32]).unwrap();
    let trail = differential_trail(&ctx, 1, 6);
    assert_eq!(trail.len(), 6);
    assert!(trail.iter().all(|&a| a <= BLOCK_SIZE));

    let t = transformer_expansion_tally(&ctx.round_f[0], 2, 20);
    assert!(t.min_active_out <= t.max_active_out && t.max_active_out <= 8);
    assert!(t.sum_active_out <= 20 * t.max_active_out && t.sum_active_out >= 20 * t.min_active_out);
    assert!(t.zero_output_count <= 20);

    let none = transformer_expansion_tally(&ctx.round_f[0], 2, 0);
    assert_eq!(none, ActivityTally { min_active_out: usize::MAX, max_active_out: 0, sum_active_out: 0, zero_output_count: 0 });

    let r = round_expansion_tally(&ctx, 3, 1, 10);
    assert!(r.min_active_out <= r.max_active_out && r.max_active_out <= BLOCK_SIZE);

    let stats = sampled_trail_tally(&ctx, 1, 4, 5);
    assert_eq!(stats.per_round_min.len(), 4);
    for q in 0..4 {
        assert!(stats.per_round_min[q] <= stats.per_round_max[q]);
        assert!(stats.per_round_sum[q] <= 5 * BLOCK_SIZE);
    }

    let zero = vec![0u8; 8];
    assert_eq!(transformer_output_activity(&ctx.round_g[1], &[9u8; 8], &zero), 0);
}

#[test]
fn weight_summary_of_a_small_table() {
    let t = GeneratedTransformer {
        depth: 1,
        heads: 1,
        connections: vec![vec![vec![
            (vec![0, 1, 1], vec![7, 0, 250]),
            (vec![2, 3, 1], vec![9, 9, 1]),
        ]]],
        sboxes: vec![(0u16..256).map(|x| x as u8).collect()],
    };
    let (weights, sources) = connection_weights_and_sources(&t);
    assert_eq!(weights, vec![7, 0, 250, 9, 9, 1]);
    assert_eq!(sources, vec![0, 1, 1, 2, 3, 1]);
    let s = weight_summary(&t);
    assert_eq!((s.count, s.min, s.max, s.zero_count), (6, 0, 250, 1));
    assert_eq!(s.source_usage.len(), 4);
    assert_eq!(s.source_usage[&1], 3);
    assert_eq!(s.source_usage[&0], 1);
}

#[test]
fn weight_summary_of_a_generated_transformer() {
    let ctx = CipherContext::new(&vec![1u8; 32]).unwrap();
    let t = &ctx.round_f[2];
    let s = weight_summary(t);
    assert_eq!(s.count, t.depth * t.heads * 8 * 3);
    assert_eq!(s.zero_count, 0);
    assert!(s.min >= 1);
    assert_eq!(s.source_usage.values().sum::<usize>(), s.count);
    assert!(s.source_usage.keys().all(|&k| k < 8));
}

#[test]
fn round_keys_matter_for_differences_after_the_first_round() {
    let ctx = CipherContext::new(&vec![3u8; 32]).unwrap();
    let base: Vec<u8> = (0u8..16).map(|i| i.wrapping_mul(29)).collect();
    let mut delta = vec![0u8; 16];
    delta[5] = 0x40;
    let xor = |a: &[u8], b: &[u8]| -> Vec<u8> { a.iter().zip(b).map(|(x, y)| x ^ y).collect() };
    let other = xor(&base, &delta);
    let (mut a, mut b) = (base.clone(), other.clone());
    let (mut ka, mut kb) = (base.clone(), other.clone());
    for r in 0..2 {
        a = round_transform_no_key(&a, &ctx, r);
        b = round_transform_no_key(&b, &ctx, r);
        ka = xor(&round_transform_no_key(&ka, &ctx, r), &ctx.round_key[r]);
        kb = xor(&round_transform_no_key(&kb, &ctx, r), &ctx.round_key[r]);
        if r == 0 {
            assert_eq!(xor(&a, &b), xor(&ka, &kb));
        }
    }
    assert_ne!(xor(&a, &b), xor(&ka, &kb));
}

#[test]
fn round_tallies_with_an_active_input_never_see_a_zero_output() {
    let ctx = CipherContext::new(&vec![0x33u8; 32]).unwrap();
    for round in [0usize, 5, ROUNDS - 1] {
        for active_in in [1usize, 3, 16] {
            let t = round_expansion_tally(&ctx, round, active_in, 25);
            assert_eq!(t.zero_output_count, 0);
            assert!(1 <= t.min_active_out && t.min_active_out <= t.max_active_out && t.max_active_out <= BLOCK_SIZE);
        }
    }
}
