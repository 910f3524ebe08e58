//! Key-dependent S-boxes `S_K(x) = A_K(x^-1) XOR b_K`, with `A_K` a
//! key-derived invertible GF(2) matrix and `b_K` a key-derived byte.

use crate::gf::{
    gf2_invertible_spec, gf256_inverse_table, gf_inv_spec, is_inverse_table, is_invertible_gf2,
    lemma_byte_map_injective_surjective, lemma_gf_inv_injective, lemma_xor_zero_eq,
    mat_vec_spec, matrix_vec_mul_gf2,
};
use crate::kdf::{append_bytes, be32, push_be32, shake256_stream, stream_bytes};
use vstd::prelude::*;
use vstd::string::StringSliceAdditionalSpecFns;

verus! {

// ============================================================
// Affine map derivation
// ============================================================

/// `key ∥ identifier ∥ be32(round_number) ∥ "AFFINE"`.
pub open spec fn affine_base_seed(key: Seq<u8>, round_number: u32, identifier: Seq<u8>) -> Seq<u8> {
    key + identifier + be32(round_number) + "AFFINE".spec_bytes()
}

/// The candidate matrix rows drawn at `attempt`.
pub open spec fn affine_candidate(
    key: Seq<u8>,
    round_number: u32,
    identifier: Seq<u8>,
    attempt: u32,
) -> Seq<u8> {
    shake256_stream(
        affine_base_seed(key, round_number, identifier) + "TRY".spec_bytes() + be32(attempt),
        8,
    )
}

/// The candidate at `attempt` is an invertible matrix.
pub open spec fn affine_attempt_ok(
    key: Seq<u8>,
    round_number: u32,
    identifier: Seq<u8>,
    attempt: u32,
) -> bool {
    gf2_invertible_spec(affine_candidate(key, round_number, identifier, attempt))
}

/// Some 32-bit attempt counter yields an invertible candidate, so the
/// affine derivation terminates.
pub open spec fn sbox_derivable(key: Seq<u8>, round_number: u32, identifier: Seq<u8>) -> bool {
    exists|attempt: u32| affine_attempt_ok(key, round_number, identifier, attempt)
}

/// `attempt` is the first one yielding an invertible candidate.
pub open spec fn is_first_affine_attempt(
    key: Seq<u8>,
    round_number: u32,
    identifier: Seq<u8>,
    attempt: u32,
) -> bool {
    &&& affine_attempt_ok(key, round_number, identifier, attempt)
    &&& forall|a: u32| a < attempt ==> !affine_attempt_ok(key, round_number, identifier, a)
}

/// The derived matrix `A_K`: the first invertible candidate.
pub open spec fn affine_matrix(key: Seq<u8>, round_number: u32, identifier: Seq<u8>) -> Seq<u8> {
    affine_candidate(
        key,
        round_number,
        identifier,
        choose|a: u32| is_first_affine_attempt(key, round_number, identifier, a),
    )
}

/// The derived constant `b_K`.
pub open spec fn affine_constant(key: Seq<u8>, round_number: u32, identifier: Seq<u8>) -> u8 {
    shake256_stream(affine_base_seed(key, round_number, identifier) + "CONST".spec_bytes(), 1)[0]
}

proof fn lemma_first_attempt_exists(key: Seq<u8>, round_number: u32, identifier: Seq<u8>, w: u32)
    requires
        affine_attempt_ok(key, round_number, identifier, w),
    ensures
        exists|a: u32| is_first_affine_attempt(key, round_number, identifier, a),
    decreases w,
{
    if exists|b: u32| b < w && affine_attempt_ok(key, round_number, identifier, b) {
        let b = choose|b: u32| b < w && affine_attempt_ok(key, round_number, identifier, b);
        lemma_first_attempt_exists(key, round_number, identifier, b);
    } else {
        assert(is_first_affine_attempt(key, round_number, identifier, w));
    }
}

/// For a derivable S-box, the derived matrix is invertible.
pub proof fn lemma_affine_matrix_invertible(key: Seq<u8>, round_number: u32, identifier: Seq<u8>)
    requires
        sbox_derivable(key, round_number, identifier),
    ensures
        gf2_invertible_spec(affine_matrix(key, round_number, identifier)),
        affine_matrix(key, round_number, identifier).len() == 8,
{
    let w = choose|attempt: u32| affine_attempt_ok(key, round_number, identifier, attempt);
    lemma_first_attempt_exists(key, round_number, identifier, w);
    let a = choose|a: u32| is_first_affine_attempt(key, round_number, identifier, a);
    lemma_candidate_len(key, round_number, identifier, a);
}

/// Candidate streams are eight bytes long.
pub proof fn lemma_candidate_len(key: Seq<u8>, round_number: u32, identifier: Seq<u8>, a: u32)
    ensures
        affine_candidate(key, round_number, identifier, a).len() == 8,
{
}

} // verus!

verus! {

/// Builds `key ∥ identifier ∥ be32(round_number) ∥ "AFFINE"`.
fn affine_seed(key: &[u8], round_number: u32, identifier: &[u8]) -> (seed: Vec<u8>)
    ensures
        seed@ == affine_base_seed(key@, round_number, identifier@),
{
    let mut base_seed: Vec<u8> = Vec::new();
    append_bytes(&mut base_seed, key);
    append_bytes(&mut base_seed, identifier);
    push_be32(&mut base_seed, round_number);
    append_bytes(&mut base_seed, "AFFINE".as_bytes());
    base_seed
}

/// Derives the invertible matrix `A_K` and constant `b_K` for
/// `(key, round_number, identifier)`: candidates are drawn with attempt
/// counters 0, 1, 2, ... until one is invertible. `None` when no 32-bit
/// attempt counter yields one.
fn derive_affine_gf2(key: &[u8], round_number: u32, identifier: &[u8]) -> (r: Option<([u8; 8], u8)>)
    ensures
        match r {
            Some((rows, b)) => {
                &&& sbox_derivable(key@, round_number, identifier@)
                &&& rows@ == affine_matrix(key@, round_number, identifier@)
                &&& b == affine_constant(key@, round_number, identifier@)
            },
            None => !sbox_derivable(key@, round_number, identifier@),
        },
{
    let base_seed = affine_seed(key, round_number, identifier);
    let mut attempt: u32 = 0;
    loop
        invariant
            base_seed@ == affine_base_seed(key@, round_number, identifier@),
            forall|a: u32| a < attempt ==> !affine_attempt_ok(key@, round_number, identifier@, a),
        decreases u32::MAX - attempt,
    {
        let mut seed: Vec<u8> = Vec::new();
        append_bytes(&mut seed, base_seed.as_slice());
        append_bytes(&mut seed, "TRY".as_bytes());
        push_be32(&mut seed, attempt);
        let data = stream_bytes(seed.as_slice(), 8);
        let rows: [u8; 8] = [data[0], data[1], data[2], data[3], data[4], data[5], data[6], data[7]];
        assert(rows@ =~= affine_candidate(key@, round_number, identifier@, attempt));
        if is_invertible_gf2(&rows) {
            let mut b_seed: Vec<u8> = Vec::new();
            append_bytes(&mut b_seed, base_seed.as_slice());
            append_bytes(&mut b_seed, "CONST".as_bytes());
            let b = stream_bytes(b_seed.as_slice(), 1)[0];
            proof {
                assert(is_first_affine_attempt(key@, round_number, identifier@, attempt));
                let a = choose|a: u32| is_first_affine_attempt(key@, round_number, identifier@, a);
                assert(a == attempt) by {
                    if a < attempt {
                    } else if a > attempt {
                    }
                }
            }
            return Some((rows, b));
        }
        if attempt == u32::MAX {
            return None;
        }
        attempt += 1;
    }
}

// ============================================================
// S-box construction
// ============================================================

/// `S_K(x) = A_K(inv(x)) XOR b_K` for a given matrix and constant.
pub open spec fn affine_sbox(rows: Seq<u8>, b: u8) -> Seq<u8> {
    Seq::new(256, |x: int| mat_vec_spec(rows, gf_inv_spec(x as u8)) ^ b)
}

/// The key-derived S-box for `(key, round_number, identifier)`.
pub open spec fn sbox_spec(key: Seq<u8>, round_number: u32, identifier: Seq<u8>) -> Seq<u8> {
    affine_sbox(
        affine_matrix(key, round_number, identifier),
        affine_constant(key, round_number, identifier),
    )
}

fn sbox_from_affine(rows: &[u8; 8], b: u8, inv_table: &Vec<u8>) -> (sbox: Vec<u8>)
    requires
        is_inverse_table(inv_table@),
    ensures
        sbox@ == affine_sbox(rows@, b),
{
    let mut sbox: Vec<u8> = Vec::new();
    let mut x: usize = 0;
    while x < 256
        invariant
            x <= 256,
            inv_table@.len() == 256,
            forall|i: int| 0 <= i < 256 ==> #[trigger] inv_table@[i] == gf_inv_spec(i as u8),
            sbox@ == affine_sbox(rows@, b).subrange(0, x as int),
        decreases 256 - x,
    {
        sbox.push(matrix_vec_mul_gf2(rows, inv_table[x]) ^ b);
        x += 1;
        proof {
            assert(sbox@ =~= affine_sbox(rows@, b).subrange(0, x as int));
        }
    }
    assert(affine_sbox(rows@, b).subrange(0, 256) =~= affine_sbox(rows@, b));
    sbox
}

/// `generate_sbox` with a precomputed inverse table.
pub(crate) fn generate_sbox_with(key: &[u8], round_number: u32, identifier: &[u8], inv_table: &Vec<u8>) -> (sbox: Vec<u8>)
    requires
        sbox_derivable(key@, round_number, identifier@),
        is_inverse_table(inv_table@),
    ensures
        sbox@ == sbox_spec(key@, round_number, identifier@),
{
    match derive_affine_gf2(key, round_number, identifier) {
        Some((matrix, b)) => sbox_from_affine(&matrix, b, inv_table),
        None => {
            assert(false);
            Vec::new()
        },
    }
}

/// `try_generate_sbox` with a precomputed inverse table.
pub(crate) fn try_generate_sbox_with(key: &[u8], round_number: u32, identifier: &[u8], inv_table: &Vec<u8>) -> (sbox:
    Option<Vec<u8>>)
    requires
        is_inverse_table(inv_table@),
    ensures
        match sbox {
            Some(s) => sbox_derivable(key@, round_number, identifier@) && s@ == sbox_spec(
                key@,
                round_number,
                identifier@,
            ),
            None => !sbox_derivable(key@, round_number, identifier@),
        },
{
    match derive_affine_gf2(key, round_number, identifier) {
        Some((matrix, b)) => Some(sbox_from_affine(&matrix, b, inv_table)),
        None => None,
    }
}

/// The key-dependent S-box `S_K(x) = A_K(x^-1) XOR b_K` for
/// `(key, round_number, identifier)`.
pub fn generate_sbox(key: &[u8], round_number: u32, identifier: &[u8]) -> (sbox: Vec<u8>)
    requires
        sbox_derivable(key@, round_number, identifier@),
    ensures
        sbox@ == sbox_spec(key@, round_number, identifier@),
{
    let inv_table = gf256_inverse_table();
    generate_sbox_with(key, round_number, identifier, &inv_table)
}

/// `generate_sbox` for any inputs: `None` exactly when no attempt counter
/// yields an invertible affine matrix.
pub fn try_generate_sbox(key: &[u8], round_number: u32, identifier: &[u8]) -> (sbox: Option<Vec<u8>>)
    ensures
        match sbox {
            Some(s) => sbox_derivable(key@, round_number, identifier@) && s@ == sbox_spec(
                key@,
                round_number,
                identifier@,
            ),
            None => !sbox_derivable(key@, round_number, identifier@),
        },
{
    match derive_affine_gf2(key, round_number, identifier) {
        Some(_) => Some(generate_sbox(key, round_number, identifier)),
        None => None,
    }
}

// ============================================================
// Inverse S-box and bijectivity
// ============================================================

/// The last position `< k` of `s` holding `v`, or 0 if there is none.
pub open spec fn last_pos_below(s: Seq<u8>, v: u8, k: nat) -> int
    decreases k,
{
    if k == 0 {
        0
    } else if s[k - 1] == v {
        k - 1
    } else {
        last_pos_below(s, v, (k - 1) as nat)
    }
}

/// The inverse table of `sbox`: entry `v` is the (last) position holding
/// `v`, reduced to a byte, or 0 when `v` does not occur.
pub open spec fn inverse_sbox_spec(sbox: Seq<u8>) -> Seq<u8> {
    Seq::new(256, |v: int| #[verifier::truncate] (last_pos_below(sbox, v as u8, sbox.len()) as u8))
}

/// A 256-entry table that is a bijection on bytes.
pub open spec fn is_byte_bijection(s: Seq<u8>) -> bool {
    &&& s.len() == 256
    &&& forall|x: int, y: int| 0 <= x < 256 && 0 <= y < 256 && x != y ==> #[trigger] s[x] != #[trigger] s[y]
}

/// Inverse S-box: `inverse[sbox[i]] = i`.
pub fn inverse_sbox(sbox: &[u8]) -> (inverse: Vec<u8>)
    ensures
        inverse@ == inverse_sbox_spec(sbox@),
{
    let mut inverse: Vec<u8> = Vec::new();
    let mut k: usize = 0;
    while k < 256
        invariant
            k <= 256,
            inverse@.len() == k,
            forall|v: int| 0 <= v < k ==> #[trigger] inverse@[v] == 0,
        decreases 256 - k,
    {
        inverse.push(0);
        k += 1;
    }
    let mut i: usize = 0;
    while i < sbox.len()
        invariant
            i <= sbox@.len(),
            inverse@.len() == 256,
            forall|v: int|
                0 <= v < 256 ==> #[trigger] inverse@[v] == #[verifier::truncate] (last_pos_below(
                    sbox@,
                    v as u8,
                    i as nat,
                ) as u8),
        decreases sbox@.len() - i,
    {
        let value = sbox[i];
        inverse.set(value as usize, #[verifier::truncate] (i as u8));
        i += 1;
    }
    assert(inverse@ =~= inverse_sbox_spec(sbox@));
    inverse
}

proof fn lemma_last_pos_unique(s: Seq<u8>, i: int, k: nat)
    requires
        k <= s.len(),
        0 <= i < k,
        forall|j: int| 0 <= j < k && j != i ==> s[j] != s[i],
    ensures
        last_pos_below(s, s[i], k) == i,
    decreases k,
{
    if k - 1 != i {
        lemma_last_pos_unique(s, i, (k - 1) as nat);
    }
}

/// For a byte bijection, `inverse_sbox_spec` undoes it on both sides.
pub proof fn lemma_inverse_sbox(sbox: Seq<u8>)
    requires
        is_byte_bijection(sbox),
    ensures
        is_byte_bijection(inverse_sbox_spec(sbox)),
        forall|x: int| 0 <= x < 256 ==> #[trigger] inverse_sbox_spec(sbox)[sbox[x] as int] == x,
        forall|y: int| 0 <= y < 256 ==> #[trigger] sbox[inverse_sbox_spec(sbox)[y] as int] == y,
{
    let inv = inverse_sbox_spec(sbox);
    assert forall|x: int| 0 <= x < 256 implies #[trigger] inv[sbox[x] as int] == x by {
        lemma_last_pos_unique(sbox, x, 256);
    }
    let f = |x: u8| sbox[x as int];
    assert forall|x: u8, y: u8| #[trigger] f(x) == #[trigger] f(y) implies x == y by {
        if x != y {
            assert(sbox[x as int] != sbox[y as int]);
        }
    }
    assert forall|y: int| 0 <= y < 256 implies #[trigger] sbox[inv[y] as int] == y by {
        lemma_byte_map_injective_surjective(f, y as u8);
        let x = choose|x: u8| #[trigger] f(x) == y as u8;
        assert(inv[sbox[x as int] as int] == x as int);
    }
    assert forall|v: int, w: int| 0 <= v < 256 && 0 <= w < 256 && v != w implies #[trigger] inv[v]
        != #[trigger] inv[w] by {
        assert(sbox[inv[v] as int] == v);
        assert(sbox[inv[w] as int] == w);
    }
}

/// An affine S-box built on an invertible matrix is a bijection.
pub proof fn lemma_affine_sbox_bijective(rows: Seq<u8>, b: u8)
    requires
        rows.len() == 8,
        gf2_invertible_spec(rows),
    ensures
        is_byte_bijection(affine_sbox(rows, b)),
{
    let s = affine_sbox(rows, b);
    assert forall|x: int, y: int| 0 <= x < 256 && 0 <= y < 256 && x != y implies #[trigger] s[x]
        != #[trigger] s[y] by {
        if s[x] == s[y] {
            let mx = mat_vec_spec(rows, gf_inv_spec(x as u8));
            let my = mat_vec_spec(rows, gf_inv_spec(y as u8));
            lemma_xor_zero_eq(mx, b);
            lemma_xor_zero_eq(my, b);
            assert(mx == my);
            lemma_gf_inv_injective(x as u8, y as u8);
        }
    }
}

/// Every generated S-box is a bijection on bytes.
pub proof fn lemma_generated_sbox_bijective(key: Seq<u8>, round_number: u32, identifier: Seq<u8>)
    requires
        sbox_derivable(key, round_number, identifier),
    ensures
        is_byte_bijection(sbox_spec(key, round_number, identifier)),
{
    lemma_affine_matrix_invertible(key, round_number, identifier);
    lemma_affine_sbox_bijective(
        affine_matrix(key, round_number, identifier),
        affine_constant(key, round_number, identifier),
    );
}

} // verus!
