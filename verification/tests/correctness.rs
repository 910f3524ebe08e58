//! Round-trip correctness, ECB-pattern leakage and tamper detection of the
//! public `cipher::encrypt` / `cipher::decrypt` API.

use std::collections::HashSet;

use kgrtc::cipher;
use rand::Rng;

#[test]
fn round_trip_recovers_plaintext_for_many_random_messages() {
    let mut rng = rand::thread_rng();
    let trials = 300;
    let messages_per_key = 75;
    let mut failures = 0;

    let mut key = cipher::generate_key();
    let mut ctx = cipher::CipherContext::new(&key).unwrap();
    for trial in 0..trials {
        let fresh_key = trial % messages_per_key == 0;
        if fresh_key && trial > 0 {
            key = cipher::generate_key();
            ctx = cipher::CipherContext::new(&key).unwrap();
        }
        let length: usize = rng.gen_range(0..=255); // exercises empty, partial-block, and multi-block messages
        let mut pt = vec![0u8; length];
        rand::RngCore::fill_bytes(&mut rng, &mut pt);

        // The first message under each key derives its context from the key
        // on both sides; the rest reuse the key's context.
        let (blob, recovered) = if fresh_key {
            let blob = cipher::encrypt(&pt, &key, None, None).unwrap();
            let recovered = cipher::decrypt(&blob, &key, None).unwrap();
            (blob, recovered)
        } else {
            let blob = cipher::encrypt(&pt, &key, Some(&ctx), None).unwrap();
            let recovered = cipher::decrypt(&blob, &key, Some(&ctx)).unwrap();
            (blob, recovered)
        };
        assert_eq!(blob.len(), pt.len() + cipher::NONCE_SIZE + cipher::TAG_SIZE);
        if recovered != pt {
            failures += 1;
        }
    }

    assert_eq!(failures, 0, "{}/{} round-trips failed to recover the original plaintext", failures, trials);
}

#[test]
fn round_trip_with_a_fresh_key_for_every_message() {
    let mut rng = rand::thread_rng();
    for _ in 0..6 {
        let key = cipher::generate_key();
        let length: usize = rng.gen_range(0..=255);
        let mut pt = vec![0u8; length];
        rand::RngCore::fill_bytes(&mut rng, &mut pt);
        let blob = cipher::encrypt(&pt, &key, None, None).unwrap();
        let recovered = cipher::decrypt(&blob, &key, None).unwrap();
        assert_eq!(recovered, pt);
    }
}

#[test]
fn legacy_ecb_path_leaks_identical_blocks_but_public_api_does_not() {
    let key = cipher::generate_key();
    let ctx = cipher::CipherContext::new(&key).unwrap();
    let pt = vec![b'A'; 64];

    let ecb_blocks: Vec<Vec<u8>> = pt.chunks(16).map(|c| cipher::insecure_ecb_encrypt_single_block(c, &ctx)).collect();
    let unique_ecb: HashSet<&Vec<u8>> = ecb_blocks.iter().collect();
    assert_eq!(unique_ecb.len(), 1, "sanity check failed: legacy ECB path was expected to leak identical blocks");

    let blob1 = cipher::encrypt(&pt, &key, None, None).unwrap();
    let blob2 = cipher::encrypt(&pt, &key, None, None).unwrap();
    let ct1 = &blob1[cipher::NONCE_SIZE..blob1.len() - cipher::TAG_SIZE];
    let ct2 = &blob2[cipher::NONCE_SIZE..blob2.len() - cipher::TAG_SIZE];

    let unique_ct1: HashSet<&[u8]> = ct1.chunks(16).collect();
    assert_ne!(unique_ct1.len(), 1, "identical plaintext blocks produced identical ciphertext blocks under the public CTR API");
    assert_ne!(ct1, ct2, "two encryptions of the same plaintext produced identical ciphertext (nonce reuse?)");
}

#[test]
fn tampered_ciphertext_is_rejected() {
    let key = cipher::generate_key();
    let pt = b"transfer $100 to alice".to_vec();
    let mut blob = cipher::encrypt(&pt, &key, None, None).unwrap();
    blob[cipher::NONCE_SIZE] ^= 0x01;

    let result = cipher::decrypt(&blob, &key, None);
    assert!(result.is_err(), "tampered ciphertext was accepted instead of rejected");
}

#[test]
fn wrong_key_is_rejected() {
    let key = cipher::generate_key();
    let wrong_key = cipher::generate_key();
    let pt = b"some message".to_vec();
    let blob = cipher::encrypt(&pt, &key, None, None).unwrap();

    let result = cipher::decrypt(&blob, &wrong_key, None);
    assert!(result.is_err(), "ciphertext decrypted successfully under the wrong key");
}

#[test]
fn distinct_counter_blocks_give_distinct_keystream_and_ciphertext_chunks() {
    let key = vec![0x5cu8; 32];
    let ctx = cipher::CipherContext::new(&key).unwrap();
    let mut seen = HashSet::new();
    for nonce in [[1u8; 12], [2u8; 12]] {
        for i in 0u32..100 {
            let mut block = nonce.to_vec();
            block.extend_from_slice(&i.to_be_bytes());
            assert!(seen.insert(cipher::encrypt_block(&block, &ctx)));
        }
    }

    let pt = vec![b'A'; 64];
    let c1 = cipher::encrypt(&pt, &key, Some(&ctx), Some(&[1u8; 12][..])).unwrap();
    let c2 = cipher::encrypt(&pt, &key, Some(&ctx), Some(&[2u8; 12][..])).unwrap();
    let chunks1: Vec<&[u8]> = c1[12..76].chunks(16).collect();
    let chunks2: Vec<&[u8]> = c2[12..76].chunks(16).collect();
    for k in 0..4 {
        for l in 0..4 {
            if k != l {
                assert_ne!(chunks1[k], chunks1[l]);
            }
            assert_ne!(chunks1[k], chunks2[l]);
        }
    }
}
