//! Published example vectors for the all-zero key: round-0 S-box and
//! inverse, permutation, round key, transformer shapes and connection
//! records, MAC key, the single-block cipher and the authenticated
//! encryption vectors.

use kgrtc::cipher;

fn hex(s: &str) -> Vec<u8> {
    let digits: Vec<u8> = s.bytes().filter(|c| c.is_ascii_hexdigit()).collect();
    digits
        .chunks(2)
        .map(|p| {
            let hi = (p[0] as char).to_digit(16).unwrap() as u8;
            let lo = (p[1] as char).to_digit(16).unwrap() as u8;
            (hi << 4) | lo
        })
        .collect()
}

const SBOX0: &str = "
10 c9 24 97 45 8b a3 53 14 f1 38 e5 f6 94 01 89
96 63 e0 64 de 18 6c 9e f2 e2 37 29 17 c4 a1 d6
ae 80 d2 fb e7 d1 c0 65 3c 69 07 33 d7 51 b9 c5
74 88 7e a0 db 57 d9 e4 02 9b b8 59 6f 56 2b ff
6a ce bb 00 ad 0e 6e ec f5 f9 39 86 3e f4 cd 90
58 67 5c 9c 08 2d 5d c3 26 3b 98 22 72 81 b5 13
ca 47 ac 73 44 2c 62 3d b7 a8 87 bf 2e a7 61 77
83 9a 32 7d 7f ba 8f 1b 43 03 8a a5 40 5b e8 11
c8 ef 36 31 eb fa 1a 1e fe b2 12 0a 4e 30 76 0c
66 15 f7 79 d3 48 a4 23 c1 ea 6b 68 a2 46 b1 27
82 cf 54 1c 04 af 20 9d 0d bc 5f bd 09 21 aa 4c
dc 4d 4a 78 a6 4f 5a da d5 dd b6 c2 e3 3a 84 c7
b0 e1 8d 60 f3 1f d8 25 19 d4 52 85 df ee 55 f8
7a 7c 75 95 a9 2a 6d 34 cb 91 70 c6 4b 7b 5e cc
2f 05 3f ed 50 fc d0 8c 49 28 e6 b4 be ab 93 0f
0b 41 8e 42 35 71 e9 fd 9f 92 16 99 f0 06 1d b3";

const INV_SBOX0: &str = "
43 0e 38 79 a4 e1 fd 2a 54 ac 8b f0 8f a8 45 ef
00 7f 8a 5f 08 91 fa 1c 15 c8 86 77 a3 fe 87 c5
a6 ad 5b 97 02 c7 58 9f e9 1b d5 3e 65 55 6c e0
8d 83 72 2b d7 f4 82 1a 0a 4a bd 59 28 67 4c e2
7c f1 f3 78 64 04 9d 61 95 e8 b2 dc af b1 8c b5
e4 2d ca 07 a2 ce 3d 35 50 3b b6 7d 52 56 de aa
c3 6e 66 11 13 27 90 51 9b 29 40 9a 16 d6 46 3c
da f5 5c 63 30 d2 8e 6f b3 93 d0 dd d1 73 32 74
21 5d a0 70 be cb 4b 6a 31 0f 7a 05 e7 c2 f2 76
4f d9 f9 ee 0d d3 10 03 5a fb 71 39 53 a7 17 f8
33 1e 9c 06 96 7b b4 6d 69 d4 ae ed 62 44 20 a5
c0 9e 89 ff eb 5e ba 68 3a 2e 75 42 a9 ab ec 6b
26 98 bb 57 1d 2f db bf 80 01 60 d8 df 4e 41 a1
e6 25 22 94 c9 b8 1f 2c c6 36 b7 34 b0 b9 14 cc
12 c1 19 bc 37 0b ea 24 7e f6 99 84 47 e3 cd 81
fc 09 18 c4 4d 48 0c 92 cf 49 85 23 e5 f7 88 3f";

fn zero_key() -> Vec<u8> {
    vec![0u8; 32]
}

#[test]
fn round0_sbox_matches_published_table() {
    let sbox = cipher::generate_sbox(&zero_key(), 0, b"SBOX");
    assert_eq!(sbox, hex(SBOX0));
}

#[test]
fn round0_inverse_sbox_matches_published_table() {
    let sbox = cipher::generate_sbox(&zero_key(), 0, b"SBOX");
    let inv = cipher::inverse_sbox(&sbox);
    assert_eq!(inv, hex(INV_SBOX0));
    for x in 0..256usize {
        assert_eq!(inv[sbox[x] as usize] as usize, x);
    }
}

#[test]
fn round0_permutation_and_inverse_match_published_values() {
    let ctx = cipher::CipherContext::new(&zero_key()).unwrap();
    assert_eq!(ctx.round_perm[0], vec![3, 5, 4, 13, 12, 10, 6, 15, 2, 9, 14, 1, 8, 11, 0, 7]);
    assert_eq!(ctx.round_inv_perm[0], vec![14, 11, 8, 0, 2, 1, 6, 15, 12, 9, 5, 13, 4, 3, 10, 7]);
    assert_eq!(cipher::inverse_permutation(&ctx.round_perm[0]), ctx.round_inv_perm[0]);
}

#[test]
fn round0_round_key_matches_published_value() {
    assert_eq!(cipher::generate_round_key(&zero_key(), 0), hex("a3 34 16 96 fa 40 db 74 11 b7 54 df 3f 32 38 dc"));
    let ctx = cipher::CipherContext::new(&zero_key()).unwrap();
    assert_eq!(ctx.round_key[1], hex("54 d9 f5 3e 4f 59 0c 36 cd 8c 2d 8b 73 bf 45 e1"));
}

#[test]
fn round0_transformer_shapes_and_attempts_match_published_values() {
    let ctx = cipher::CipherContext::new(&zero_key()).unwrap();
    assert_eq!((ctx.round_f[0].depth, ctx.round_f[0].heads), (4, 4));
    assert_eq!((ctx.round_g[0].depth, ctx.round_g[0].heads), (3, 3));
    assert_eq!(ctx.round_f_topology[0].attempt, 0);
    assert_eq!(ctx.round_g_topology[0].attempt, 0);
    let f = cipher::GeneratedTransformer::new(&zero_key(), 0, b"TRANSFORMER_F");
    assert_eq!(f.connections, ctx.round_f[0].connections);
}

#[test]
fn round0_layer0_head0_connection_records_match_published_values() {
    let ctx = cipher::CipherContext::new(&zero_key()).unwrap();
    let f_nodes: Vec<(Vec<usize>, Vec<u8>)> = vec![
        (vec![6, 2, 4], hex("95 f9 4b")),
        (vec![5, 6, 1], hex("01 52 15")),
        (vec![0, 5, 3], hex("d4 93 f9")),
        (vec![5, 3, 0], hex("6a 62 f8")),
        (vec![1, 0, 2], hex("da 79 05")),
        (vec![1, 5, 0], hex("fe b3 09")),
        (vec![7, 0, 6], hex("25 f6 71")),
        (vec![5, 7, 0], hex("97 a9 69")),
    ];
    let g_nodes: Vec<(Vec<usize>, Vec<u8>)> = vec![
        (vec![6, 3, 7], hex("60 ab 8a")),
        (vec![2, 0, 4], hex("03 ea 5a")),
        (vec![2, 3, 4], hex("19 29 73")),
        (vec![3, 4, 0], hex("73 de 5f")),
        (vec![2, 1, 7], hex("bf 92 b9")),
        (vec![6, 3, 4], hex("04 fe 35")),
        (vec![4, 5, 0], hex("b0 65 12")),
        (vec![1, 7, 5], hex("e7 c4 71")),
    ];
    assert_eq!(ctx.round_f[0].connections[0][0], f_nodes);
    assert_eq!(ctx.round_g[0].connections[0][0], g_nodes);
}

#[test]
fn mac_key_matches_published_value() {
    let ctx = cipher::CipherContext::new(&zero_key()).unwrap();
    assert_eq!(
        ctx.mac_key,
        hex("42 07 b6 c8 f8 85 bb b4 71 3f 13 97 ab b0 05 d7 36 ab 87 b8 08 d2 07 71 17 93 1b 51 2e a8 8a 74")
    );
}

#[test]
fn single_block_cipher_matches_published_trace() {
    let ctx = cipher::CipherContext::new(&zero_key()).unwrap();
    let input = hex("00 01 02 03 04 05 06 07 08 09 0a 0b 0c 0d 0e 0f");
    let after_round0 = cipher::round_transform_no_key(&input, &ctx, 0);
    assert_eq!(after_round0, hex("5e c2 c2 93 7d 06 43 35 08 e3 1a 28 14 ea 32 8a"));
    let out = cipher::encrypt_block(&input, &ctx);
    assert_eq!(out, hex("94 fc 29 48 3e 54 f7 4c e6 cb a8 45 c3 dc a5 bf"));
    assert_eq!(cipher::decrypt_block(&out, &ctx), input);
}

#[test]
fn one_bit_key_change_gives_published_output() {
    let mut key = zero_key();
    key[31] = 1;
    let ctx = cipher::CipherContext::new(&key).unwrap();
    let input = hex("00 01 02 03 04 05 06 07 08 09 0a 0b 0c 0d 0e 0f");
    assert_eq!(cipher::encrypt_block(&input, &ctx), hex("94 04 8c 1a 11 09 9b ee 21 14 17 12 d3 d6 45 6f"));
}

#[test]
fn authenticated_encryption_vector_round_trips() {
    let key = zero_key();
    let nonce = vec![0x11u8; 12];
    let pt = b"KGRTC test vector message, 37 B!!!!".to_vec();
    let blob = cipher::encrypt(&pt, &key, None, Some(&nonce)).unwrap();
    assert_eq!(blob.len(), 12 + pt.len() + 32);
    assert_eq!(&blob[..12], &nonce[..]);
    assert_eq!(&blob[12..12 + 16], &hex("59 d2 71 75 30 cc c9 c8 9c e1 a6 e1 ff db 39 63")[..]);
    assert_eq!(
        &blob[blob.len() - 32..],
        &hex("b8 f5 c8 06 88 c6 50 1b d0 5d 62 66 66 28 a6 a2 9d ba 74 a6 95 9b f1 42 de 08 59 3a 2c a1 aa 0b")[..]
    );
    assert_eq!(cipher::decrypt(&blob, &key, None).unwrap(), pt);
    let mut tampered = blob.clone();
    tampered[12] ^= 0x01;
    assert_eq!(cipher::decrypt(&tampered, &key, None), Err(cipher::CipherError::AuthenticationFailed));
}

#[test]
fn boundary_message_vectors_match_published_blobs() {
    let key = zero_key();
    let nonce = vec![0x22u8; 12];
    let cases: Vec<(Vec<u8>, &str)> = vec![
        (vec![], "22 22 22 22 22 22 22 22 22 22 22 22 45 59 22 86 c3 e4 44 98 47 20 aa cb 00 d1 c0 2f 25 76 17 37 c8 71 15 98 ad ec db 9d 7f ab 78 80"),
        (vec![0u8], "22 22 22 22 22 22 22 22 22 22 22 22 fd 99 8b b9 77 05 b0 33 1c 64 71 b2 a8 25 78 30 26 4f dc 40 70 ae b6 b5 76 f9 f2 a5 43 38 1e 9d 51"),
        ((0u8..16).collect(), "22 22 22 22 22 22 22 22 22 22 22 22 fd 21 d3 83 14 a0 2c d0 12 39 c3 5e 3f 83 40 e6 90 d1 e1 ca 8e 5c a0 fc 1f 4f b0 7b dc a3 ac 17 b4 6c 46 85 42 cd cc ce db 63 1f 2d 88 a3 93 db"),
        ((0u8..17).collect(), "22 22 22 22 22 22 22 22 22 22 22 22 fd 21 d3 83 14 a0 2c d0 12 39 c3 5e 3f 83 40 e6 50 91 5b 67 a8 b3 f0 81 1a 85 24 ce 70 62 6d a7 f5 5a 6c 01 de f9 cd 0d 08 27 5a b9 94 ff 6e cc ca"),
    ];
    let ctx = cipher::CipherContext::new(&key).unwrap();
    for (pt, expected) in cases {
        let blob = cipher::encrypt(&pt, &key, Some(&ctx), Some(&nonce)).unwrap();
        assert_eq!(blob, hex(expected));
        assert_eq!(blob.len(), pt.len() + 44);
        assert_eq!(cipher::decrypt(&blob, &key, Some(&ctx)).unwrap(), pt);
    }
}

#[test]
fn stream_bytes_is_shake256() {
    // SHAKE-256 of the empty string.
    assert_eq!(
        cipher::stream_bytes(b"", 32),
        hex("46 b9 dd 2b 0b a8 8d 13 23 3b 3f eb 74 3e eb 24 3f cd 52 ea 62 b8 1b 82 b5 0c 27 64 6e d5 76 2f")
    );
    let long = cipher::stream_bytes(b"seed", 40);
    assert_eq!(&long[..8], &cipher::stream_bytes(b"seed", 8)[..]);
}
