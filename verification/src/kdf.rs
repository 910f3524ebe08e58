//! Deterministic key-derived byte streams (SHAKE-256) and the canonical
//! byte/integer serialization used to build derivation seeds.

use sha3::digest::{ExtendableOutput, Update, XofReader};
use sha3::Shake256;
use vstd::prelude::*;

verus! {

// ============================================================
// SHAKE-256 extendable output
// ============================================================

/// Byte number `index` of SHAKE-256's (unbounded) output stream over `seed`.
pub uninterp spec fn shake256_byte(seed: Seq<u8>, index: nat) -> u8;

/// The first `len` bytes of SHAKE-256's output stream over `seed`.
pub open spec fn shake256_stream(seed: Seq<u8>, len: nat) -> Seq<u8> {
    Seq::new(len, |i: int| shake256_byte(seed, i as nat))
}

/// Calls `sha3::Shake256`: `default`, `update(seed)`, `finalize_xof`, then
/// `XofReader::read` into an `n`-byte buffer. Claimed: the reader fills
/// the whole buffer, and byte `i` of the output is byte `i` of the
/// SHAKE-256 stream over the seed, whatever `n` is (an extendable-output
/// function's shorter outputs are prefixes of its longer ones).
#[verifier::external_body]
fn shake256_read(seed: &[u8], n: usize) -> (out: Vec<u8>)
    ensures
        out@.len() == n,
        forall|i: int| 0 <= i < n ==> #[trigger] out@[i] == shake256_byte(seed@, i as nat),
{
    let mut hasher = Shake256::default();
    hasher.update(seed);
    let mut reader = hasher.finalize_xof();
    let mut out = vec![0u8; n];
    reader.read(&mut out);
    out
}

/// Deterministic n-byte stream from a seed. Same seed -> same output.
pub fn stream_bytes(seed: &[u8], n: usize) -> (out: Vec<u8>)
    ensures
        out@ == shake256_stream(seed@, n as nat),
{
    let out = shake256_read(seed, n);
    assert(out@ =~= shake256_stream(seed@, n as nat));
    out
}

// ============================================================
// Byte strings and big-endian integers
// ============================================================

/// Appends the bytes of `s` to `v`.
pub fn append_bytes(v: &mut Vec<u8>, s: &[u8])
    ensures
        final(v)@ == old(v)@ + s@,
{
    let ghost v0 = v@;
    let mut i: usize = 0;
    while i < s.len()
        invariant
            i <= s@.len(),
            v@ == v0 + s@.subrange(0, i as int),
        decreases s@.len() - i,
    {
        v.push(s[i]);
        i += 1;
        proof {
            assert(s@.subrange(0, i as int) == s@.subrange(0, i - 1) + seq![s@[i - 1]]);
        }
    }
    assert(s@.subrange(0, s@.len() as int) == s@);
}

/// `be16(x)`: two bytes, most significant first.
pub open spec fn be16(x: u16) -> Seq<u8> {
    seq![(x >> 8u16) as u8, x as u8]
}

/// `be32(x)`: four bytes, most significant first.
pub open spec fn be32(x: u32) -> Seq<u8> {
    seq![(x >> 24u32) as u8, (x >> 16u32) as u8, (x >> 8u32) as u8, x as u8]
}

/// `be32` is injective.
pub proof fn lemma_be32_injective(x: u32, y: u32)
    requires
        be32(x) == be32(y),
    ensures
        x == y,
{
    assert(be32(x)[0] == be32(y)[0] && be32(x)[1] == be32(y)[1]);
    assert(be32(x)[2] == be32(y)[2] && be32(x)[3] == be32(y)[3]);
    lemma_bytes_of_u32_determine_it(x, y);
}

proof fn lemma_bytes_of_u32_determine_it(x: u32, y: u32)
    by (bit_vector)
    requires
        (x >> 24u32) as u8 == (y >> 24u32) as u8,
        (x >> 16u32) as u8 == (y >> 16u32) as u8,
        (x >> 8u32) as u8 == (y >> 8u32) as u8,
        x as u8 == y as u8,
    ensures
        x == y,
{
}

/// Appends `be16(x)` to `v`.
pub fn push_be16(v: &mut Vec<u8>, x: u16)
    ensures
        final(v)@ == old(v)@ + be16(x),
{
    v.push((x >> 8) as u8);
    v.push(x as u8);
}

/// Appends `be32(x)` to `v`.
pub fn push_be32(v: &mut Vec<u8>, x: u32)
    ensures
        final(v)@ == old(v)@ + be32(x),
{
    v.push((x >> 24) as u8);
    v.push((x >> 16) as u8);
    v.push((x >> 8) as u8);
    v.push(x as u8);
}

/// The big-endian `u64` encoded by the eight bytes `s[pos..pos + 8]`.
pub open spec fn be_u64_at(s: Seq<u8>, pos: int) -> u64 {
    ((s[pos] as u64) << 56u64) | ((s[pos + 1] as u64) << 48u64) | ((s[pos + 2] as u64) << 40u64) | ((
    s[pos + 3] as u64) << 32u64) | ((s[pos + 4] as u64) << 24u64) | ((s[pos + 5] as u64) << 16u64)
        | ((s[pos + 6] as u64) << 8u64) | (s[pos + 7] as u64)
}

/// Decodes the big-endian `u64` at `data[pos..pos + 8]`.
pub fn u64_from_be_at(data: &[u8], pos: usize) -> (r: u64)
    requires
        pos + 8 <= data@.len(),
    ensures
        r == be_u64_at(data@, pos as int),
{
    ((data[pos] as u64) << 56) | ((data[pos + 1] as u64) << 48) | ((data[pos + 2] as u64) << 40) | ((
    data[pos + 3] as u64) << 32) | ((data[pos + 4] as u64) << 24) | ((data[pos + 5] as u64) << 16)
        | ((data[pos + 6] as u64) << 8) | (data[pos + 7] as u64)
}

// ============================================================
// Deterministic integers
// ============================================================

/// The integer in `[0, maximum)` derived from `seed ∥ label`.
pub open spec fn derive_int_spec(seed: Seq<u8>, label: Seq<u8>, maximum: u64) -> u64 {
    (be_u64_at(shake256_stream(seed + label, 8), 0) % maximum) as u64
}

/// Deterministic integer in [0, maximum).
pub fn derive_int(seed: &[u8], label: &[u8], maximum: u64) -> (r: u64)
    requires
        maximum > 0,
    ensures
        r == derive_int_spec(seed@, label@, maximum),
        r < maximum,
{
    let mut full_seed: Vec<u8> = Vec::new();
    append_bytes(&mut full_seed, seed);
    append_bytes(&mut full_seed, label);
    let data = stream_bytes(full_seed.as_slice(), 8);
    let value = u64_from_be_at(data.as_slice(), 0);
    value % maximum
}

} // verus!
