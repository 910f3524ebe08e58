//! Analyzer metrics on tables with known values, structural diffusion of
//! generated transformers, the exact layer-0 classification, error
//! variants and the round-trip properties on concrete values.

use kgrtc::analyzer;
use kgrtc::cipher;
use kgrtc::generation::{derive_shape, generate_connections};
use kgrtc::topology::evaluate_topology;

fn identity_table() -> Vec<u8> {
    (0u16..256).map(|x| x as u8).collect()
}

#[test]
fn identity_table_metrics() {
    let id = identity_table();
    let report = analyzer::sbox_quality_report(&id);
    assert!(report.bijective);
    assert_eq!(report.fixed_points, 256);
    assert_eq!(report.opposite_fixed_points, 0);
    assert_eq!(report.differential_uniformity, 256);
    assert_eq!(report.linearity, 128);
    assert_eq!(report.nonlinearity, 0);
    assert_eq!(report.algebraic_degree, 1);
    assert_eq!(report.max_autocorrelation, 256);
    assert_eq!(report.cycle_lengths, vec![1usize; 256]);
}

#[test]
fn complement_table_has_only_opposite_fixed_points() {
    let t: Vec<u8> = (0u16..256).map(|x| (x as u8) ^ 0xff).collect();
    assert_eq!(analyzer::sbox_fixed_points(&t), 0);
    assert_eq!(analyzer::sbox_opposite_fixed_points(&t), 256);
    assert_eq!(analyzer::sbox_cycle_structure(&t), vec![2usize; 128]);
}

#[test]
fn bijectivity_of_small_tables() {
    assert!(analyzer::sbox_is_bijective(&[1, 0]));
    assert!(analyzer::sbox_is_bijective(&[]));
    assert!(!analyzer::sbox_is_bijective(&[0, 0]));
    assert!(!analyzer::sbox_is_bijective(&[2, 0]));
    assert!(!analyzer::sbox_is_bijective(&vec![0u8; 257]));
}

#[test]
fn cycle_structure_is_longest_first() {
    assert_eq!(analyzer::sbox_cycle_structure(&[1, 2, 0, 4, 3]), vec![3, 2]);
    assert_eq!(analyzer::sbox_cycle_structure(&[0, 1, 2]), vec![1, 1, 1]);
}

#[test]
fn ddt_rows_of_identity_and_generated_sbox() {
    let id = identity_table();
    assert_eq!(analyzer::sbox_ddt_row(&id, 5), vec![5]);
    assert_eq!(analyzer::sbox_ddt_row(&id, 0), vec![0]);
    let sbox = cipher::generate_sbox(&vec![0u8; 32], 0, b"SBOX");
    assert_eq!(analyzer::sbox_ddt_row(&sbox, 0), vec![0]);
    // Inversion-based S-boxes realise 127 distinct output differences per row.
    assert_eq!(analyzer::sbox_ddt_row(&sbox, 1).len(), 127);
}

#[test]
fn small_table_differential_uniformity() {
    // x -> x XOR 1 on 4 entries: every input difference maps to itself.
    assert_eq!(analyzer::sbox_differential_uniformity(&[1, 0, 3, 2]), 4);
    assert_eq!(analyzer::sbox_differential_uniformity(&[]), 0);
    let (lin, nonlin) = analyzer::sbox_linearity_and_nonlinearity(&[0, 1, 2, 3]);
    assert_eq!((lin, nonlin), (2, 0));
}

#[test]
fn active_bytes_counts_nonzero_bytes() {
    assert_eq!(analyzer::active_bytes(&[0, 1, 0, 3]), 2);
    assert_eq!(analyzer::active_bytes(&[]), 0);
}

#[test]
fn generated_transformer_has_full_structural_diffusion() {
    let ctx = cipher::CipherContext::new(&vec![0u8; 32]).unwrap();
    let f = &ctx.round_f[0];
    let sets = analyzer::dependency_sets(f);
    assert_eq!(sets.len(), 8);
    for s in &sets {
        assert_eq!(s.len(), 8);
        for i in 0..8usize {
            assert!(s.contains(&i));
        }
    }
    let report = analyzer::diffusion_report(f);
    assert!(report.full_diffusion);
    assert_eq!(report.covered_pairs, 64);
    assert_eq!(report.per_output_dependency_count, vec![8usize; 8]);
    assert!(report.dead_inputs.is_empty());
    assert_eq!((report.depth, report.heads), (4, 4));
}

#[test]
fn exact_layer0_status_respects_ddt_compatibility() {
    let ctx = cipher::CipherContext::new(&vec![0u8; 32]).unwrap();
    for t in [&ctx.round_f[0], &ctx.round_g[0]] {
        for pos in 0..8usize {
            let mut delta = vec![0u8; 8];
            delta[pos] = 0x5a;
            let statuses = analyzer::exact_layer0_active_status(t, &delta);
            assert_eq!(statuses.len(), 8);
            for s in statuses {
                if let analyzer::ExactActiveStatus::Resolved { heads_active, ddt_compatible, jointly_realizable } = s {
                    assert!(heads_active >= 2);
                    assert!(ddt_compatible || jointly_realizable != Some(true));
                }
            }
        }
        let zero = analyzer::exact_layer0_active_status(t, &[0u8; 8]);
        assert!(zero.iter().all(|s| *s == analyzer::ExactActiveStatus::ProvenInactive));
    }
}

#[test]
fn exact_layer0_status_matches_observed_output_differences() {
    let ctx = cipher::CipherContext::new(&vec![7u8; 32]).unwrap();
    let t = &ctx.round_f[0];
    let layer0 = cipher::GeneratedTransformer {
        depth: 1,
        heads: t.heads,
        connections: vec![t.connections[0].clone()],
        sboxes: vec![t.sboxes[0].clone()],
    };
    let bases: Vec<Vec<u8>> = (0u8..64)
        .map(|i| (0u8..8).map(|j| i.wrapping_mul(37).wrapping_add(j.wrapping_mul(91)) ^ (i >> 2)).collect())
        .collect();
    for pos in 0..8usize {
        let mut delta = vec![0u8; 8];
        delta[pos] = 0x21;
        let statuses = analyzer::exact_layer0_active_status(t, &delta);
        for x in &bases {
            let xd: Vec<u8> = x.iter().zip(&delta).map(|(a, b)| a ^ b).collect();
            let y = cipher::transformer_function(x, &layer0);
            let yd = cipher::transformer_function(&xd, &layer0);
            for o in 0..8 {
                match statuses[o] {
                    analyzer::ExactActiveStatus::ProvenInactive => assert_eq!(y[o], yd[o]),
                    analyzer::ExactActiveStatus::ProvenActive => assert_ne!(y[o], yd[o]),
                    analyzer::ExactActiveStatus::Resolved { jointly_realizable: Some(false), .. } => {
                        assert_ne!(y[o], yd[o])
                    }
                    _ => {}
                }
            }
        }
    }
}

#[test]
fn exact_single_byte_sweep_tallies_every_pair() {
    let ctx = cipher::CipherContext::new(&vec![0u8; 32]).unwrap();
    let sweep = analyzer::exact_layer0_single_byte_sweep(&ctx.round_g[0], 3);
    assert_eq!(sweep.active_position, 3);
    assert_eq!(sweep.deltas_tested, 255);
    let total = sweep.proven_inactive_count
        + sweep.proven_active_count
        + sweep.ddt_compatible_but_not_realizable_count
        + sweep.jointly_realizable_count
        + sweep.not_ddt_compatible_count
        + sweep.joint_rank_exceeded_count;
    assert_eq!(total, 255 * 8);
    assert_eq!(sweep.example_collision.is_some(), sweep.jointly_realizable_count > 0);
    assert_eq!(sweep.example_false_positive.is_some(), sweep.ddt_compatible_but_not_realizable_count > 0);
}

#[test]
fn error_variants_are_reported() {
    assert_eq!(cipher::CipherContext::new(&[0u8; 31]).err(), Some(cipher::CipherError::InvalidKeyLength));
    let key = vec![7u8; 32];
    assert_eq!(cipher::encrypt(b"x", &key, None, Some(&[0u8; 11])), Err(cipher::CipherError::InvalidNonceLength));
    assert_eq!(cipher::encrypt(b"x", &[0u8; 5], None, Some(&[0u8; 11])), Err(cipher::CipherError::InvalidKeyLength));
    assert_eq!(cipher::decrypt(&[0u8; 43], &key, None), Err(cipher::CipherError::CiphertextTooShort));
    assert_eq!(cipher::decrypt(&[0u8; 44], &[0u8; 3], None), Err(cipher::CipherError::InvalidKeyLength));
    assert_eq!(cipher::decrypt(&[0u8; 44], &key, None), Err(cipher::CipherError::AuthenticationFailed));
}

#[test]
fn error_messages() {
    assert_eq!(cipher::CipherError::InvalidKeyLength.message(), "Key must contain exactly 32 bytes (256 bits)");
    assert_eq!(cipher::CipherError::InvalidNonceLength.message(), "Nonce must be exactly 12 bytes");
    assert_eq!(
        cipher::CipherError::MessageTooLong.message(),
        "Message too long for this nonce size (counter would wrap)"
    );
    assert_eq!(cipher::CipherError::CiphertextTooShort.message(), "Ciphertext too short to contain nonce + tag");
    assert_eq!(
        cipher::CipherError::AuthenticationFailed.message(),
        "Authentication failed: ciphertext or nonce was modified"
    );
}

#[test]
fn decrypt_undoes_encrypt_with_explicit_context_and_nonce() {
    let key = vec![9u8; 32];
    let ctx = cipher::CipherContext::new(&key).unwrap();
    let nonce = cipher::generate_nonce();
    for len in [0usize, 1, 15, 16, 17, 33, 100] {
        let pt: Vec<u8> = (0..len).map(|i| (i * 7 + 3) as u8).collect();
        let blob = cipher::encrypt(&pt, &key, Some(&ctx), Some(&nonce)).unwrap();
        assert_eq!(blob.len(), len + 44);
        assert_eq!(cipher::decrypt(&blob, &key, Some(&ctx)).unwrap(), pt);
        assert_eq!(cipher::decrypt(&blob, &key, None).unwrap(), pt);
    }
}

#[test]
fn block_decryption_undoes_encryption_both_ways() {
    let ctx = cipher::CipherContext::new(&vec![3u8; 32]).unwrap();
    let block: Vec<u8> = (0u8..16).map(|i| i.wrapping_mul(37)).collect();
    assert_eq!(cipher::decrypt_block(&cipher::encrypt_block(&block, &ctx), &ctx), block);
    assert_eq!(cipher::encrypt_block(&cipher::decrypt_block(&block, &ctx), &ctx), block);
    assert_ne!(cipher::encrypt_block(&block, &ctx), block);
}

#[test]
fn coupling_and_permutation_roundtrips() {
    let ctx = cipher::CipherContext::new(&vec![5u8; 32]).unwrap();
    let block: Vec<u8> = (10u8..26).collect();
    let coupled = cipher::reversible_coupling(&block, &ctx.round_f[2], &ctx.round_g[2]);
    assert_ne!(coupled, block);
    assert_eq!(cipher::inverse_reversible_coupling(&coupled, &ctx.round_f[2], &ctx.round_g[2]), block);
    let perm = cipher::generate_permutation(b"some seed", 16);
    let inv = cipher::inverse_permutation(&perm);
    let moved = cipher::apply_permutation(&block, &perm);
    assert_eq!(cipher::apply_permutation(&moved, &inv), block);
    let mut sorted = perm.clone();
    sorted.sort();
    assert_eq!(sorted, (0usize..16).collect::<Vec<usize>>());
}

#[test]
fn gf_multiplication_matches_aes_examples() {
    assert_eq!(cipher::gf_mul(0x57, 0x83), 0xc1);
    assert_eq!(cipher::gf_mul(0x57, 0x13), 0xfe);
    assert_eq!(cipher::gf_mul(0x53, 0xca), 0x01);
    assert_eq!(cipher::gf_mul(0, 0x9d), 0);
}

#[test]
fn generated_sbox_and_its_inverse_undo_each_other() {
    let sbox = cipher::generate_sbox(&vec![1u8; 32], 4, b"SBOX");
    let inv = cipher::inverse_sbox(&sbox);
    for x in 0..256usize {
        assert_eq!(inv[sbox[x] as usize] as usize, x);
        assert_eq!(sbox[inv[x] as usize] as usize, x);
    }
}

#[test]
fn fallible_constructors_agree_with_the_direct_ones() {
    let key = vec![0u8; 32];
    let t = cipher::GeneratedTransformer::try_new(&key, 0, b"TRANSFORMER_F").unwrap();
    let direct = cipher::GeneratedTransformer::new(&key, 0, b"TRANSFORMER_F");
    assert_eq!(t.connections, direct.connections);
    assert_eq!(t.sboxes, direct.sboxes);
    let constraints = cipher::TopologyConstraints::default();
    let (g, d) = cipher::GeneratedTransformer::try_new_constrained(&key, 0, b"TRANSFORMER_G", &constraints).unwrap();
    assert_eq!((g.depth, g.heads), (3, 3));
    assert_eq!(d.attempt, 0);
    assert!(cipher::try_generate_sbox(&key, 0, b"SBOX").is_some());
}

#[test]
fn default_topology_constraints() {
    let c = cipher::TopologyConstraints::default();
    assert!(c.require_full_diffusion);
    assert_eq!(c.min_node_fanin, 4);
    assert_eq!((c.max_usage_ratio.numerator, c.max_usage_ratio.denominator), (5, 2));
    assert_eq!(c.max_attempts, 32);
}

#[test]
fn generated_keys_and_nonces_have_fixed_lengths_and_differ() {
    let k1 = cipher::generate_key();
    let k2 = cipher::generate_key();
    assert_eq!(k1.len(), 32);
    assert_ne!(k1, k2);
    assert_eq!(cipher::generate_nonce().len(), 12);
}

#[test]
fn gf_inverse_table_holds_inverses() {
    let table = kgrtc::gf::gf256_inverse_table();
    assert_eq!(table[0], 0);
    for a in 1..256usize {
        assert_eq!(cipher::gf_mul(a as u8, table[a]), 1);
    }
}

#[test]
fn generated_sboxes_share_the_inversion_metrics() {
    let inversion = kgrtc::gf::gf256_inverse_table();
    let du = analyzer::sbox_differential_uniformity(&inversion);
    let lin = analyzer::sbox_linearity_and_nonlinearity(&inversion);
    let deg = analyzer::sbox_algebraic_degree(&inversion);
    let ac = analyzer::sbox_max_autocorrelation(&inversion);
    assert_eq!((du, lin, deg, ac), (4, (16, 112), 7, 32));
    for r in 0..3u32 {
        let s = cipher::generate_sbox(&[0x5cu8; 32], r, b"SBOX");
        assert_eq!(analyzer::sbox_differential_uniformity(&s), du);
        assert_eq!(analyzer::sbox_linearity_and_nonlinearity(&s), lin);
        assert_eq!(analyzer::sbox_algebraic_degree(&s), deg);
        assert_eq!(analyzer::sbox_max_autocorrelation(&s), ac);
    }
}

#[test]
fn round_key_never_changes_a_difference() {
    let ctx = cipher::CipherContext::new(&vec![0x33u8; 32]).unwrap();
    let x: Vec<u8> = (0u8..16).collect();
    let y: Vec<u8> = (0u8..16).map(|i| i ^ 0x80).collect();
    for r in 0..3 {
        let ax = cipher::round_transform_no_key(&x, &ctx, r);
        let ay = cipher::round_transform_no_key(&y, &ctx, r);
        let kx: Vec<u8> = ax.iter().zip(&ctx.round_key[r]).map(|(a, k)| a ^ k).collect();
        let ky: Vec<u8> = ay.iter().zip(&ctx.round_key[r]).map(|(a, k)| a ^ k).collect();
        let keyed: Vec<u8> = kx.iter().zip(&ky).map(|(a, b)| a ^ b).collect();
        let keyless: Vec<u8> = ax.iter().zip(&ay).map(|(a, b)| a ^ b).collect();
        assert_eq!(keyed, keyless);
    }
}

#[test]
fn shape_checks_accept_generated_structures_and_reject_damaged_ones() {
    let mut ctx = cipher::CipherContext::new(&vec![0x44u8; 32]).unwrap();
    assert!(ctx.is_well_formed());
    assert!(ctx.round_f[0].is_well_formed(8));
    assert!(ctx.round_g[5].has_dependency_shape());

    let mut bad = cipher::GeneratedTransformer {
        depth: ctx.round_f[0].depth,
        heads: ctx.round_f[0].heads,
        connections: ctx.round_f[0].connections.clone(),
        sboxes: ctx.round_f[0].sboxes.clone(),
    };
    bad.connections[1][0][3].0[0] = 8;
    assert!(!bad.is_well_formed(8));
    assert!(!bad.has_dependency_shape());
    bad.connections[1][0][3].0[0] = 7;
    assert!(bad.is_well_formed(8));
    bad.sboxes[0].pop();
    assert!(!bad.is_well_formed(8));
    assert!(bad.has_dependency_shape());

    ctx.round_key[3].pop();
    assert!(!ctx.is_well_formed());
}

#[test]
fn fallback_topology_scores_at_least_as_high_as_every_candidate() {
    let key = vec![0x21u8; 32];
    let constraints = cipher::TopologyConstraints {
        require_full_diffusion: true,
        min_node_fanin: 100,
        max_usage_ratio: cipher::UsageRatio { numerator: 1, denominator: 1 },
        max_attempts: 6,
    };
    let (_t, accepted) = cipher::GeneratedTransformer::new_constrained(&key, 2, b"TRANSFORMER_F", &constraints);
    assert!(!accepted.passes(&constraints));
    let mut base = key.clone();
    base.extend_from_slice(b"TRANSFORMER_F");
    base.extend_from_slice(&2u32.to_be_bytes());
    let (depth, heads) = derive_shape(&base);
    let mut seen = false;
    for attempt in 0..6u32 {
        let d = evaluate_topology(attempt, depth, heads, &generate_connections(&base, depth, heads, attempt));
        assert!(!d.passes(&constraints));
        assert!(!d.scores_above(&accepted));
        if d.attempt == accepted.attempt {
            seen = true;
        }
    }
    assert!(seen);
}

#[test]
fn incompatible_rows_are_reported_unrealizable_even_above_the_rank_cap() {
    let head = |s: [usize; 3]| -> Vec<(Vec<usize>, Vec<u8>)> { (0..8).map(|_| (s.to_vec(), vec![1u8, 1, 1])).collect() };
    let t = cipher::GeneratedTransformer {
        depth: 1,
        heads: 3,
        connections: vec![vec![head([0, 1, 2]), head([3, 4, 5]), head([6, 7, 0])]],
        sboxes: vec![identity_table()],
    };
    let delta = [1u8, 0, 0, 2, 0, 0, 0, 5];
    let statuses = analyzer::exact_layer0_active_status(&t, &delta);
    assert_eq!(
        statuses[0],
        analyzer::ExactActiveStatus::Resolved { heads_active: 3, ddt_compatible: false, jointly_realizable: Some(false) }
    );
}

#[test]
fn outputs_ignore_inputs_outside_their_dependency_sets() {
    let head = |s: [usize; 3]| -> Vec<(Vec<usize>, Vec<u8>)> { (0..8).map(|_| (s.to_vec(), vec![3u8, 5, 7])).collect() };
    let t = cipher::GeneratedTransformer {
        depth: 2,
        heads: 1,
        connections: vec![vec![head([0, 1, 2])], vec![head([3, 4, 5])]],
        sboxes: vec![identity_table(), (0u16..256).map(|x| (x as u8).rotate_left(3) ^ 0x5c).collect()],
    };
    let sets = analyzer::dependency_sets(&t);
    let x = [9u8, 8, 7, 6, 5, 4, 3, 2];
    let mut y = x;
    for i in 0..8 {
        if !sets[0].contains(&i) {
            y[i] ^= 0xa5;
        }
    }
    assert_ne!(x, y);
    let fx = cipher::transformer_function(&x, &t);
    let fy = cipher::transformer_function(&y, &t);
    assert_eq!(fx[0], fy[0]);
}

#[test]
fn constrained_search_accepts_the_first_passing_candidate() {
    let strict = cipher::TopologyConstraints {
        require_full_diffusion: true,
        min_node_fanin: 6,
        max_usage_ratio: cipher::UsageRatio { numerator: 2, denominator: 1 },
        max_attempts: 12,
    };
    for (seed, constraints) in [(0x11u8, cipher::TopologyConstraints::default()), (0x11u8, strict.clone()), (0x5au8, strict.clone()), (0xc3u8, strict)] {
        let key = vec![seed; 32];
        for round in 0..3u32 {
            let (t, accepted) = cipher::GeneratedTransformer::new_constrained(&key, round, b"TRANSFORMER_F", &constraints);
            let mut base = key.clone();
            base.extend_from_slice(b"TRANSFORMER_F");
            base.extend_from_slice(&round.to_be_bytes());
            let (depth, heads) = derive_shape(&base);
            let mut first_passing = None;
            for attempt in 0..constraints.max_attempts {
                let d = evaluate_topology(attempt, depth, heads, &generate_connections(&base, depth, heads, attempt));
                if d.passes(&constraints) {
                    first_passing = Some(attempt);
                    break;
                }
            }
            match first_passing {
                Some(p) => {
                    assert_eq!(accepted.attempt, p);
                    assert!(accepted.passes(&constraints));
                }
                None => assert!(!accepted.passes(&constraints)),
            }
            assert_eq!(t.connections, generate_connections(&base, depth, heads, accepted.attempt));
        }
    }
}

#[test]
fn generated_transformers_have_the_documented_structure() {
    for seed in [0u8, 7, 0x42, 0xff] {
        let key = vec![seed; 32];
        for round in 0..4u32 {
            let t = cipher::GeneratedTransformer::new(&key, round, b"TRANSFORMER_G");
            assert!((2..=4).contains(&t.depth) && (2..=4).contains(&t.heads));
            assert_eq!(t.connections.len(), t.depth);
            assert_eq!(t.sboxes.len(), t.depth);
            for layer in 0..t.depth {
                assert!(analyzer::sbox_is_bijective(&t.sboxes[layer]));
                assert_eq!(t.connections[layer].len(), t.heads);
                for head in 0..t.heads {
                    assert_eq!(t.connections[layer][head].len(), 8);
                    for (sources, weights) in &t.connections[layer][head] {
                        assert_eq!((sources.len(), weights.len()), (3, 3));
                        assert!(sources.iter().all(|&s| s < 8));
                        assert!(sources[0] != sources[1] && sources[0] != sources[2] && sources[1] != sources[2]);
                        assert!(weights.iter().all(|&w| w != 0));
                    }
                }
            }
        }
    }
}

#[test]
fn topology_evaluation_agrees_with_the_diffusion_report() {
    for seed in [1u8, 9, 0x80] {
        let key = vec![seed; 32];
        for round in 0..4u32 {
            let t = cipher::GeneratedTransformer::new(&key, round, b"TRANSFORMER_F");
            let d = evaluate_topology(0, t.depth, t.heads, &t.connections);
            let rep = analyzer::diffusion_report(&t);
            assert_eq!(d.attempt, 0);
            assert_eq!(d.full_diffusion, rep.full_diffusion);
            assert_eq!(d.dead_inputs, rep.dead_inputs);
            assert_eq!(d.max_usage_ratio.denominator, 24 * t.heads as u64);
        }
    }
}
