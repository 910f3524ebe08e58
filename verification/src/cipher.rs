//! The KGRTC block cipher: the per-key context of round structures,
//! single-block encryption and decryption, CTR mode and the public
//! encrypt-then-MAC API.
//!
//! This is an experimental, unaudited primitive: do not use it to protect
//! anything that matters.

use crate::generation::{
    accepted_attempt, candidate_diagnostics, shape_depth, shape_heads, transformer_base_seed,
    transformer_derivable, transformer_model,
};
use crate::kdf::{append_bytes, be32, lemma_be32_injective, push_be32, shake256_stream};
use crate::permutation::{
    apply_perm_spec, generate_permutation_spec, inverse_perm_spec, is_permutation,
    lemma_apply_inverse_roundtrip, lemma_inverse_permutation,
};
use crate::sbox::{
    inverse_sbox_spec, is_byte_bijection, lemma_generated_sbox_bijective, lemma_inverse_sbox,
    sbox_derivable, sbox_spec,
};
use crate::topology::DiagnosticsModel;
use crate::transformer::{
    coupling_spec, inverse_coupling_spec, lemma_coupling_roundtrip, lemma_transform_len,
    transform_spec, transformer_wf, xor_bytes, TransformerModel,
};
use hmac::{Hmac, Mac};
use rand::RngCore;
use sha2::Sha256;
use vstd::prelude::*;
use vstd::string::StringSliceAdditionalSpecFns;

pub use crate::gf::gf_mul;
pub use crate::kdf::stream_bytes;
pub use crate::permutation::{apply_permutation, generate_permutation, inverse_permutation};
pub use crate::sbox::{generate_sbox, inverse_sbox, try_generate_sbox};
pub use crate::topology::{TopologyConstraints, TopologyDiagnostics, UsageRatio};
pub use crate::transformer::{
    inverse_reversible_coupling, reversible_coupling, transformer_function, Connections,
    GeneratedTransformer, BLOCK_SIZE, HALF_SIZE,
};

verus! {

// ============================================================
// Configuration
// ============================================================

/// 256-bit master key.
pub const KEY_SIZE: usize = 32;

pub const ROUNDS: usize = 14;

/// Nonce bytes at the front of every CTR counter block.
pub const NONCE_SIZE: usize = 12;

/// Counter bytes at the back of every CTR counter block: up to 2^32
/// blocks per nonce.
pub const COUNTER_SIZE: usize = BLOCK_SIZE - NONCE_SIZE;

/// HMAC-SHA256 output.
pub const TAG_SIZE: usize = 32;

#[derive(Debug, Clone, Copy, PartialEq, Eq, Structural)]
pub enum CipherError {
    InvalidKeyLength,
    InvalidNonceLength,
    MessageTooLong,
    CiphertextTooShort,
    AuthenticationFailed,
    /// Some S-box of the key schedule has no invertible affine matrix
    /// among its 2^32 candidate attempt counters.
    KeyDerivationExhausted,
}

/// The human-readable description of each error.
pub open spec fn error_message(e: CipherError) -> Seq<char> {
    match e {
        CipherError::InvalidKeyLength => "Key must contain exactly 32 bytes (256 bits)"@,
        CipherError::InvalidNonceLength => "Nonce must be exactly 12 bytes"@,
        CipherError::MessageTooLong => "Message too long for this nonce size (counter would wrap)"@,
        CipherError::CiphertextTooShort => "Ciphertext too short to contain nonce + tag"@,
        CipherError::AuthenticationFailed => "Authentication failed: ciphertext or nonce was modified"@,
        CipherError::KeyDerivationExhausted => "No invertible affine matrix among the attempt counters of some S-box"@,
    }
}

impl CipherError {
    /// The description of the error, as displayed to users.
    pub fn message(&self) -> (s: String)
        ensures
            s@ == error_message(*self),
    {
        match self {
            CipherError::InvalidKeyLength => "Key must contain exactly 32 bytes (256 bits)".to_owned(),
            CipherError::InvalidNonceLength => "Nonce must be exactly 12 bytes".to_owned(),
            CipherError::MessageTooLong => "Message too long for this nonce size (counter would wrap)".to_owned(),
            CipherError::CiphertextTooShort => "Ciphertext too short to contain nonce + tag".to_owned(),
            CipherError::AuthenticationFailed => "Authentication failed: ciphertext or nonce was modified".to_owned(),
            CipherError::KeyDerivationExhausted => {
                "No invertible affine matrix among the attempt counters of some S-box".to_owned()
            },
        }
    }
}

} // verus!

verus! {

// ============================================================
// Round keys and the per-key context
// ============================================================

/// `key ∥ label ∥ be32(round_number)`.
pub open spec fn round_seed(key: Seq<u8>, label: Seq<u8>, round_number: u32) -> Seq<u8> {
    key + label + be32(round_number)
}

/// Round key `round_number`: 16 bytes of SHAKE-256 over `key ∥ "ROUND_KEY" ∥ be32(round_number)`.
pub open spec fn round_key_spec(key: Seq<u8>, round_number: u32) -> Seq<u8> {
    shake256_stream(round_seed(key, "ROUND_KEY".spec_bytes(), round_number), BLOCK_SIZE as nat)
}

/// The state permutation of round `round_number`.
pub open spec fn state_perm_spec(key: Seq<u8>, round_number: u32) -> Seq<usize> {
    generate_permutation_spec(round_seed(key, "STATE_PERM".spec_bytes(), round_number), BLOCK_SIZE as nat)
}

/// The MAC key: 32 bytes of SHAKE-256 over `key ∥ "MAC_KEY_V1"`.
pub open spec fn mac_key_spec(key: Seq<u8>) -> Seq<u8> {
    shake256_stream(key + "MAC_KEY_V1".spec_bytes(), 32)
}

/// The F or G transformer of a round, on the topology accepted under `c`.
pub open spec fn round_transformer_spec(key: Seq<u8>, round_number: u32, identifier: Seq<u8>, c: TopologyConstraints) -> TransformerModel {
    transformer_model(key, round_number, identifier, accepted_attempt(key, round_number, identifier, c))
}

/// The diagnostics of the topology accepted under `c`.
pub open spec fn round_topology_spec(key: Seq<u8>, round_number: u32, identifier: Seq<u8>, c: TopologyConstraints) -> DiagnosticsModel {
    let base = transformer_base_seed(key, round_number, identifier);
    candidate_diagnostics(base, shape_depth(base), shape_heads(base), accepted_attempt(key, round_number, identifier, c))
}

/// Round `round_number`'s S-box and F/G transformers can be derived.
pub open spec fn round_derivable(key: Seq<u8>, round_number: u32) -> bool {
    &&& sbox_derivable(key, round_number, "SBOX".spec_bytes())
    &&& transformer_derivable(key, round_number, "TRANSFORMER_F".spec_bytes())
    &&& transformer_derivable(key, round_number, "TRANSFORMER_G".spec_bytes())
}

/// Every round of the key schedule can be derived.
pub open spec fn context_derivable(key: Seq<u8>) -> bool {
    forall|r: int| 0 <= r < ROUNDS ==> #[trigger] round_derivable(key, r as u32)
}

/// The value of a cipher context.
pub struct ContextModel {
    pub key: Seq<u8>,
    pub round_sbox: Seq<Seq<u8>>,
    pub round_inv_sbox: Seq<Seq<u8>>,
    pub round_perm: Seq<Seq<usize>>,
    pub round_inv_perm: Seq<Seq<usize>>,
    pub round_key: Seq<Seq<u8>>,
    pub round_f: Seq<TransformerModel>,
    pub round_g: Seq<TransformerModel>,
    pub round_f_topology: Seq<DiagnosticsModel>,
    pub round_g_topology: Seq<DiagnosticsModel>,
    pub mac_key: Seq<u8>,
}

/// The context derived from `key` with F/G topologies accepted under `c`.
#[verifier::opaque]
pub open spec fn context_spec(key: Seq<u8>, c: TopologyConstraints) -> ContextModel {
    ContextModel {
        key,
        round_sbox: Seq::new(ROUNDS as nat, |r: int| sbox_spec(key, r as u32, "SBOX".spec_bytes())),
        round_inv_sbox: Seq::new(
            ROUNDS as nat,
            |r: int| inverse_sbox_spec(sbox_spec(key, r as u32, "SBOX".spec_bytes())),
        ),
        round_perm: Seq::new(ROUNDS as nat, |r: int| state_perm_spec(key, r as u32)),
        round_inv_perm: Seq::new(ROUNDS as nat, |r: int| inverse_perm_spec(state_perm_spec(key, r as u32))),
        round_key: Seq::new(ROUNDS as nat, |r: int| round_key_spec(key, r as u32)),
        round_f: Seq::new(
            ROUNDS as nat,
            |r: int| round_transformer_spec(key, r as u32, "TRANSFORMER_F".spec_bytes(), c),
        ),
        round_g: Seq::new(
            ROUNDS as nat,
            |r: int| round_transformer_spec(key, r as u32, "TRANSFORMER_G".spec_bytes(), c),
        ),
        round_f_topology: Seq::new(
            ROUNDS as nat,
            |r: int| round_topology_spec(key, r as u32, "TRANSFORMER_F".spec_bytes(), c),
        ),
        round_g_topology: Seq::new(
            ROUNDS as nat,
            |r: int| round_topology_spec(key, r as u32, "TRANSFORMER_G".spec_bytes(), c),
        ),
        mac_key: mac_key_spec(key),
    }
}

/// Every per-round table of a derived context has `ROUNDS` entries.
pub proof fn lemma_context_spec_shape(key: Seq<u8>, c: TopologyConstraints)
    ensures
        ({
            let m = context_spec(key, c);
            &&& m.key == key
            &&& m.round_sbox.len() == ROUNDS
            &&& m.round_inv_sbox.len() == ROUNDS
            &&& m.round_perm.len() == ROUNDS
            &&& m.round_inv_perm.len() == ROUNDS
            &&& m.round_key.len() == ROUNDS
            &&& m.round_f.len() == ROUNDS
            &&& m.round_g.len() == ROUNDS
            &&& m.round_f_topology.len() == ROUNDS
            &&& m.round_g_topology.len() == ROUNDS
            &&& m.mac_key == mac_key_spec(key)
        }),
{
    reveal(context_spec);
}

/// What building a context for `key` under `c` gives: the key length is
/// checked first, then that every round can be derived.
pub open spec fn context_result(key: Seq<u8>, c: TopologyConstraints) -> Result<ContextModel, CipherError> {
    if key.len() != KEY_SIZE {
        Err(CipherError::InvalidKeyLength)
    } else if !context_derivable(key) {
        Err(CipherError::KeyDerivationExhausted)
    } else {
        Ok(context_spec(key, c))
    }
}

/// `p` has 16 entries, each a position of a 16-byte block.
pub open spec fn block_perm_shape(p: Seq<usize>) -> bool {
    &&& p.len() == BLOCK_SIZE
    &&& forall|i: int| 0 <= i < BLOCK_SIZE ==> #[trigger] p[i] < BLOCK_SIZE
}

/// Round `r` of the context can be applied to a block without an
/// out-of-range access.
pub open spec fn round_wf(m: ContextModel, r: int) -> bool {
    &&& m.round_sbox[r].len() == 256
    &&& m.round_inv_sbox[r].len() == 256
    &&& block_perm_shape(m.round_perm[r])
    &&& block_perm_shape(m.round_inv_perm[r])
    &&& m.round_key[r].len() == BLOCK_SIZE
    &&& transformer_wf(m.round_f[r], HALF_SIZE as nat)
    &&& transformer_wf(m.round_g[r], HALF_SIZE as nat)
}

/// The context holds `ROUNDS` well-shaped rounds.
pub open spec fn context_wf(m: ContextModel) -> bool {
    &&& m.round_sbox.len() == ROUNDS
    &&& m.round_inv_sbox.len() == ROUNDS
    &&& m.round_perm.len() == ROUNDS
    &&& m.round_inv_perm.len() == ROUNDS
    &&& m.round_key.len() == ROUNDS
    &&& m.round_f.len() == ROUNDS
    &&& m.round_g.len() == ROUNDS
    &&& forall|r: int| 0 <= r < ROUNDS ==> #[trigger] round_wf(m, r)
}

/// Round `r`'s S-box is a bijection and its permutation a permutation,
/// each stored with its inverse.
pub open spec fn round_consistent(m: ContextModel, r: int) -> bool {
    &&& is_byte_bijection(m.round_sbox[r])
    &&& m.round_inv_sbox[r] == inverse_sbox_spec(m.round_sbox[r])
    &&& is_permutation(m.round_perm[r], BLOCK_SIZE as nat)
    &&& m.round_inv_perm[r] == inverse_perm_spec(m.round_perm[r])
}

/// Every round holds its own inverse tables.
pub open spec fn context_consistent(m: ContextModel) -> bool {
    forall|r: int| 0 <= r < ROUNDS ==> #[trigger] round_consistent(m, r)
}

/// The per-round round key: SHAKE-256 over `key ∥ "ROUND_KEY" ∥ be32(round_number)`.
pub fn generate_round_key(key: &[u8], round_number: u32) -> (rk: Vec<u8>)
    ensures
        rk@ == round_key_spec(key@, round_number),
{
    let mut seed: Vec<u8> = Vec::new();
    append_bytes(&mut seed, key);
    append_bytes(&mut seed, "ROUND_KEY".as_bytes());
    push_be32(&mut seed, round_number);
    stream_bytes(seed.as_slice(), BLOCK_SIZE)
}

/// Every key-dependent structure (S-boxes, permutations, round keys and
/// the F/G transformers of every round), computed once per key.
pub struct CipherContext {
    pub key: Vec<u8>,
    pub round_sbox: Vec<Vec<u8>>,
    pub round_inv_sbox: Vec<Vec<u8>>,
    pub round_perm: Vec<Vec<usize>>,
    pub round_inv_perm: Vec<Vec<usize>>,
    pub round_key: Vec<Vec<u8>>,
    pub round_f: Vec<GeneratedTransformer>,
    pub round_g: Vec<GeneratedTransformer>,
    /// Diagnostics of the F/G topology accepted in each round.
    pub round_f_topology: Vec<TopologyDiagnostics>,
    pub round_g_topology: Vec<TopologyDiagnostics>,
    pub mac_key: Vec<u8>,
}

impl View for CipherContext {
    type V = ContextModel;

    open spec fn view(&self) -> ContextModel {
        ContextModel {
            key: self.key@,
            round_sbox: self.round_sbox@.map_values(|s: Vec<u8>| s@),
            round_inv_sbox: self.round_inv_sbox@.map_values(|s: Vec<u8>| s@),
            round_perm: self.round_perm@.map_values(|p: Vec<usize>| p@),
            round_inv_perm: self.round_inv_perm@.map_values(|p: Vec<usize>| p@),
            round_key: self.round_key@.map_values(|k: Vec<u8>| k@),
            round_f: self.round_f@.map_values(|t: GeneratedTransformer| t@),
            round_g: self.round_g@.map_values(|t: GeneratedTransformer| t@),
            round_f_topology: self.round_f_topology@.map_values(|d: TopologyDiagnostics| d@),
            round_g_topology: self.round_g_topology@.map_values(|d: TopologyDiagnostics| d@),
            mac_key: self.mac_key@,
        }
    }
}

/// The default acceptance criteria of F/G topologies.
pub open spec fn default_constraints() -> TopologyConstraints {
    TopologyConstraints {
        require_full_diffusion: true,
        min_node_fanin: 4,
        max_usage_ratio: UsageRatio { numerator: 5, denominator: 2 },
        max_attempts: 32,
    }
}

} // verus!

verus! {

/// The structures of one round.
struct RoundParts {
    sbox: Vec<u8>,
    inv_sbox: Vec<u8>,
    perm: Vec<usize>,
    inv_perm: Vec<usize>,
    rk: Vec<u8>,
    f: GeneratedTransformer,
    g: GeneratedTransformer,
    f_topology: TopologyDiagnostics,
    g_topology: TopologyDiagnostics,
}

/// Round `r`'s parts agree with round `r` of the context model `m`.
spec fn parts_match(p: RoundParts, m: ContextModel, r: int) -> bool {
    &&& p.sbox@ == m.round_sbox[r]
    &&& p.inv_sbox@ == m.round_inv_sbox[r]
    &&& p.perm@ == m.round_perm[r]
    &&& p.inv_perm@ == m.round_inv_perm[r]
    &&& p.rk@ == m.round_key[r]
    &&& p.f@ == m.round_f[r]
    &&& p.g@ == m.round_g[r]
    &&& p.f_topology@ == m.round_f_topology[r]
    &&& p.g_topology@ == m.round_g_topology[r]
}

/// Round `r`'s structures, or `None` when the round cannot be derived.
fn derive_round(key: &[u8], r: u32, constraints: &TopologyConstraints, inv_table: &Vec<u8>) -> (out: Option<RoundParts>)
    requires
        constraints.max_attempts >= 1,
        crate::gf::is_inverse_table(inv_table@),
        r < ROUNDS,
    ensures
        match out {
            Some(p) => {
                let m = context_spec(key@, *constraints);
                &&& round_derivable(key@, r)
                &&& parts_match(p, m, r as int)
                &&& round_wf(m, r as int)
                &&& round_consistent(m, r as int)
            },
            None => !round_derivable(key@, r),
        },
{
    let ghost m = context_spec(key@, *constraints);
    proof {
        reveal(context_spec);
    }
    let sbox = match crate::sbox::try_generate_sbox_with(key, r, "SBOX".as_bytes(), inv_table) {
        Some(s) => s,
        None => {
            return None;
        },
    };
    let inv_sbox = inverse_sbox(sbox.as_slice());
    let mut perm_seed: Vec<u8> = Vec::new();
    append_bytes(&mut perm_seed, key);
    append_bytes(&mut perm_seed, "STATE_PERM".as_bytes());
    push_be32(&mut perm_seed, r);
    let perm = generate_permutation(perm_seed.as_slice(), BLOCK_SIZE);
    let inv_perm = inverse_permutation(perm.as_slice());
    let rk = generate_round_key(key, r);
    let (f, f_topology) = match GeneratedTransformer::try_build_constrained(
        key,
        r,
        "TRANSFORMER_F".as_bytes(),
        constraints,
        inv_table,
    ) {
        Some(f) => f,
        None => {
            return None;
        },
    };
    let (g, g_topology) = match GeneratedTransformer::try_build_constrained(
        key,
        r,
        "TRANSFORMER_G".as_bytes(),
        constraints,
        inv_table,
    ) {
        Some(g) => g,
        None => {
            return None;
        },
    };
    proof {
        lemma_generated_sbox_bijective(key@, r, "SBOX".spec_bytes());
        lemma_inverse_sbox(sbox@);
        lemma_inverse_permutation(perm@, BLOCK_SIZE as nat);
    }
    Some(RoundParts { sbox, inv_sbox, perm, inv_perm, rk, f, g, f_topology, g_topology })
}

/// `p` has 16 entries, each a position of a 16-byte block, computed.
fn block_perm_ok(p: &Vec<usize>) -> (r: bool)
    ensures
        r == block_perm_shape(p@),
{
    if p.len() != BLOCK_SIZE {
        return false;
    }
    let mut i: usize = 0;
    while i < BLOCK_SIZE
        invariant
            i <= BLOCK_SIZE,
            p@.len() == BLOCK_SIZE,
            forall|j: int| 0 <= j < i ==> #[trigger] p@[j] < BLOCK_SIZE,
        decreases BLOCK_SIZE - i,
    {
        if p[i] >= BLOCK_SIZE {
            return false;
        }
        i += 1;
    }
    true
}

impl CipherContext {
    /// Whether the context holds `ROUNDS` rounds that can be applied to a
    /// block: 256-entry S-boxes, 16-entry block permutations, 16-byte round
    /// keys and F/G transformers that can be evaluated on 8 bytes.
    pub fn is_well_formed(&self) -> (r: bool)
        ensures
            r == context_wf(self@),
    {
        let ghost m = self@;
        if self.round_sbox.len() != ROUNDS || self.round_inv_sbox.len() != ROUNDS || self.round_perm.len() != ROUNDS
            || self.round_inv_perm.len() != ROUNDS || self.round_key.len() != ROUNDS || self.round_f.len() != ROUNDS
            || self.round_g.len() != ROUNDS {
            return false;
        }
        let mut r: usize = 0;
        while r < ROUNDS
            invariant
                m == self@,
                r <= ROUNDS,
                self.round_sbox@.len() == ROUNDS,
                self.round_inv_sbox@.len() == ROUNDS,
                self.round_perm@.len() == ROUNDS,
                self.round_inv_perm@.len() == ROUNDS,
                self.round_key@.len() == ROUNDS,
                self.round_f@.len() == ROUNDS,
                self.round_g@.len() == ROUNDS,
                forall|j: int| 0 <= j < r ==> #[trigger] round_wf(m, j),
            decreases ROUNDS - r,
        {
            let ok = self.round_sbox[r].len() == 256 && self.round_inv_sbox[r].len() == 256 && block_perm_ok(
                &self.round_perm[r],
            ) && block_perm_ok(&self.round_inv_perm[r]) && self.round_key[r].len() == BLOCK_SIZE
                && self.round_f[r].is_well_formed(HALF_SIZE) && self.round_g[r].is_well_formed(HALF_SIZE);
            if !ok {
                assert(!round_wf(m, r as int));
                return false;
            }
            r += 1;
        }
        true
    }

    /// The context of `key` under the default topology constraints.
    pub fn new(key: &[u8]) -> (r: Result<Self, CipherError>)
        ensures
            match r {
                Ok(c) => {
                    &&& context_result(key@, default_constraints()) == Ok::<ContextModel, CipherError>(c@)
                    &&& context_wf(c@)
                    &&& context_consistent(c@)
                },
                Err(e) => context_result(key@, default_constraints()) == Err::<ContextModel, CipherError>(e),
            },
    {
        let constraints = TopologyConstraints::default();
        Self::new_with_topology_constraints(key, &constraints)
    }

    /// The context of `key`, with F/G topologies accepted under
    /// `topology_constraints`.
    pub fn new_with_topology_constraints(key: &[u8], topology_constraints: &TopologyConstraints) -> (r:
        Result<Self, CipherError>)
        requires
            topology_constraints.max_attempts >= 1,
        ensures
            match r {
                Ok(c) => {
                    &&& context_result(key@, *topology_constraints) == Ok::<ContextModel, CipherError>(c@)
                    &&& context_wf(c@)
                    &&& context_consistent(c@)
                },
                Err(e) => context_result(key@, *topology_constraints) == Err::<ContextModel, CipherError>(e),
            },
    {
        if key.len() != KEY_SIZE {
            return Err(CipherError::InvalidKeyLength);
        }
        let ghost m = context_spec(key@, *topology_constraints);
        let inv_table = crate::gf::gf256_inverse_table();
        let mut round_sbox: Vec<Vec<u8>> = Vec::new();
        let mut round_inv_sbox: Vec<Vec<u8>> = Vec::new();
        let mut round_perm: Vec<Vec<usize>> = Vec::new();
        let mut round_inv_perm: Vec<Vec<usize>> = Vec::new();
        let mut round_key: Vec<Vec<u8>> = Vec::new();
        let mut round_f: Vec<GeneratedTransformer> = Vec::new();
        let mut round_g: Vec<GeneratedTransformer> = Vec::new();
        let mut round_f_topology: Vec<TopologyDiagnostics> = Vec::new();
        let mut round_g_topology: Vec<TopologyDiagnostics> = Vec::new();
        let mut r: usize = 0;
        while r < ROUNDS
            invariant
                r <= ROUNDS,
                key@.len() == KEY_SIZE,
                topology_constraints.max_attempts >= 1,
                crate::gf::is_inverse_table(inv_table@),
                m == context_spec(key@, *topology_constraints),
                forall|q: int| 0 <= q < r ==> #[trigger] round_derivable(key@, q as u32),
                round_sbox@.len() == r,
                round_inv_sbox@.len() == r,
                round_perm@.len() == r,
                round_inv_perm@.len() == r,
                round_key@.len() == r,
                round_f@.len() == r,
                round_g@.len() == r,
                round_f_topology@.len() == r,
                round_g_topology@.len() == r,
                forall|q: int| 0 <= q < r ==> (#[trigger] round_sbox@[q])@ == m.round_sbox[q],
                forall|q: int| 0 <= q < r ==> (#[trigger] round_inv_sbox@[q])@ == m.round_inv_sbox[q],
                forall|q: int| 0 <= q < r ==> (#[trigger] round_perm@[q])@ == m.round_perm[q],
                forall|q: int| 0 <= q < r ==> (#[trigger] round_inv_perm@[q])@ == m.round_inv_perm[q],
                forall|q: int| 0 <= q < r ==> (#[trigger] round_key@[q])@ == m.round_key[q],
                forall|q: int| 0 <= q < r ==> (#[trigger] round_f@[q])@ == m.round_f[q],
                forall|q: int| 0 <= q < r ==> (#[trigger] round_g@[q])@ == m.round_g[q],
                forall|q: int| 0 <= q < r ==> (#[trigger] round_f_topology@[q])@ == m.round_f_topology[q],
                forall|q: int| 0 <= q < r ==> (#[trigger] round_g_topology@[q])@ == m.round_g_topology[q],
                forall|q: int| 0 <= q < r ==> #[trigger] round_wf(m, q),
                forall|q: int| 0 <= q < r ==> #[trigger] round_consistent(m, q),
            decreases ROUNDS - r,
        {
            let parts = match derive_round(key, r as u32, topology_constraints, &inv_table) {
                Some(p) => p,
                None => {
                    return Err(CipherError::KeyDerivationExhausted);
                },
            };
            proof {
                lemma_context_spec_shape(key@, *topology_constraints);
                assert(round_wf(m, r as int));
                assert(round_consistent(m, r as int));
                assert(parts_match(parts, m, r as int));
            }
            let RoundParts { sbox, inv_sbox, perm, inv_perm, rk, f, g, f_topology: f_topo, g_topology: g_topo } = parts;
            round_sbox.push(sbox);
            round_inv_sbox.push(inv_sbox);
            round_perm.push(perm);
            round_inv_perm.push(inv_perm);
            round_key.push(rk);
            round_f.push(f);
            round_g.push(g);
            round_f_topology.push(f_topo);
            round_g_topology.push(g_topo);
            r += 1;
        }
        let mut mac_seed: Vec<u8> = Vec::new();
        append_bytes(&mut mac_seed, key);
        append_bytes(&mut mac_seed, "MAC_KEY_V1".as_bytes());
        let mac_key = stream_bytes(mac_seed.as_slice(), 32);
        let mut key_copy: Vec<u8> = Vec::new();
        append_bytes(&mut key_copy, key);
        let ctx = CipherContext {
            key: key_copy,
            round_sbox,
            round_inv_sbox,
            round_perm,
            round_inv_perm,
            round_key,
            round_f,
            round_g,
            round_f_topology,
            round_g_topology,
            mac_key,
        };
        proof {
            lemma_context_spec_shape(key@, *topology_constraints);
            let v = ctx@;
            assert(v.round_sbox =~= m.round_sbox);
            assert(v.round_inv_sbox =~= m.round_inv_sbox);
            assert(v.round_perm =~= m.round_perm);
            assert(v.round_inv_perm =~= m.round_inv_perm);
            assert(v.round_key =~= m.round_key);
            assert(v.round_f =~= m.round_f);
            assert(v.round_g =~= m.round_g);
            assert(v.round_f_topology =~= m.round_f_topology);
            assert(v.round_g_topology =~= m.round_g_topology);
            assert(v == m);
        }
        Ok(ctx)
    }
}

} // verus!

verus! {

// ============================================================
// Single-block encryption and decryption
// ============================================================

/// Every byte of `block` replaced by its entry in `sbox`.
pub open spec fn sub_bytes_spec(block: Seq<u8>, sbox: Seq<u8>) -> Seq<u8> {
    Seq::new(block.len(), |i: int| sbox[block[i] as int])
}

/// One round's S-box substitution, permutation and F/G coupling, without
/// the round-key XOR.
pub open spec fn round_no_key_spec(block: Seq<u8>, m: ContextModel, r: int) -> Seq<u8> {
    coupling_spec(
        apply_perm_spec(sub_bytes_spec(block, m.round_sbox[r]), m.round_perm[r]),
        m.round_f[r],
        m.round_g[r],
    )
}

/// One full round: `round_no_key_spec` followed by the round-key XOR.
pub open spec fn round_spec(block: Seq<u8>, m: ContextModel, r: int) -> Seq<u8> {
    xor_bytes(round_no_key_spec(block, m, r), m.round_key[r])
}

/// The first `n` rounds applied to `block`, round 0 first.
pub open spec fn encrypt_rounds(block: Seq<u8>, m: ContextModel, n: nat) -> Seq<u8>
    decreases n,
{
    if n == 0 {
        block
    } else {
        round_spec(encrypt_rounds(block, m, (n - 1) as nat), m, n - 1)
    }
}

/// The inverse of round `r`: round-key XOR, inverse coupling, inverse
/// permutation, inverse S-box.
pub open spec fn inverse_round_spec(block: Seq<u8>, m: ContextModel, r: int) -> Seq<u8> {
    sub_bytes_spec(
        apply_perm_spec(
            inverse_coupling_spec(xor_bytes(block, m.round_key[r]), m.round_f[r], m.round_g[r]),
            m.round_inv_perm[r],
        ),
        m.round_inv_sbox[r],
    )
}

/// The inverses of rounds `n - 1` down to 0 applied to `block`.
pub open spec fn decrypt_rounds(block: Seq<u8>, m: ContextModel, n: nat) -> Seq<u8>
    decreases n,
{
    if n == 0 {
        block
    } else {
        decrypt_rounds(inverse_round_spec(block, m, n - 1), m, (n - 1) as nat)
    }
}

pub open spec fn encrypt_block_spec(block: Seq<u8>, m: ContextModel) -> Seq<u8> {
    encrypt_rounds(block, m, ROUNDS as nat)
}

pub open spec fn decrypt_block_spec(block: Seq<u8>, m: ContextModel) -> Seq<u8> {
    decrypt_rounds(block, m, ROUNDS as nat)
}

/// Substitutes every byte of `block` through `sbox`.
fn substitute(block: &[u8], sbox: &Vec<u8>) -> (out: Vec<u8>)
    requires
        sbox@.len() == 256,
    ensures
        out@ == sub_bytes_spec(block@, sbox@),
{
    let mut out: Vec<u8> = Vec::new();
    let mut i: usize = 0;
    while i < block.len()
        invariant
            i <= block@.len(),
            sbox@.len() == 256,
            out@ == sub_bytes_spec(block@, sbox@).subrange(0, i as int),
        decreases block@.len() - i,
    {
        out.push(sbox[block[i] as usize]);
        i += 1;
        proof {
            assert(out@ =~= sub_bytes_spec(block@, sbox@).subrange(0, i as int));
        }
    }
    assert(out@ =~= sub_bytes_spec(block@, sbox@));
    out
}

/// The length of one round's output.
pub(crate) proof fn lemma_round_lens(block: Seq<u8>, m: ContextModel, r: int)
    requires
        context_wf(m),
        0 <= r < ROUNDS,
        block.len() >= BLOCK_SIZE,
    ensures
        round_no_key_spec(block, m, r).len() == BLOCK_SIZE,
        round_spec(block, m, r).len() == BLOCK_SIZE,
{
    assert(round_wf(m, r));
    let p = apply_perm_spec(sub_bytes_spec(block, m.round_sbox[r]), m.round_perm[r]);
    let a = p.subrange(0, 8);
    lemma_transform_len(a, m.round_f[r]);
    let bp = xor_bytes(p.subrange(8, 16), transform_spec(a, m.round_f[r]));
    lemma_transform_len(bp, m.round_g[r]);
}

/// The length of one inverse round's output.
proof fn lemma_inverse_round_lens(block: Seq<u8>, m: ContextModel, r: int)
    requires
        context_wf(m),
        0 <= r < ROUNDS,
        block.len() >= BLOCK_SIZE,
    ensures
        inverse_round_spec(block, m, r).len() == BLOCK_SIZE,
{
    assert(round_wf(m, r));
    let x = xor_bytes(block, m.round_key[r]);
    let bp = x.subrange(8, 16);
    lemma_transform_len(bp, m.round_g[r]);
    let a = xor_bytes(x.subrange(0, 8), transform_spec(bp, m.round_g[r]));
    lemma_transform_len(a, m.round_f[r]);
}

/// Applies one round's S-box substitution, permutation and reversible F/G
/// coupling to `block`, but not the round-key XOR: XOR with a fixed round
/// key never changes the difference of two states, so differential
/// studies of the nonlinear components can skip it.
pub fn round_transform_no_key(block: &[u8], ctx: &CipherContext, round: usize) -> (out: Vec<u8>)
    requires
        context_wf(ctx@),
        round < ROUNDS,
        block@.len() >= BLOCK_SIZE,
    ensures
        out@ == round_no_key_spec(block@, ctx@, round as int),
        out@.len() == BLOCK_SIZE,
{
    let ghost m = ctx@;
    proof {
        assert(round_wf(m, round as int));
        lemma_round_lens(block@, m, round as int);
    }
    let sbox = &ctx.round_sbox[round];
    let perm = &ctx.round_perm[round];
    let substituted = substitute(block, sbox);
    let permuted = apply_permutation(substituted.as_slice(), perm.as_slice());
    proof {
        let a = permuted@.subrange(0, 8);
        lemma_transform_len(a, m.round_f[round as int]);
    }
    reversible_coupling(permuted.as_slice(), &ctx.round_f[round], &ctx.round_g[round])
}

/// Bytewise XOR of a block with a round key.
fn xor_key(block: &[u8], rk: &Vec<u8>) -> (out: Vec<u8>)
    ensures
        out@ == xor_bytes(block@, rk@),
{
    let n = if block.len() <= rk.len() {
        block.len()
    } else {
        rk.len()
    };
    let mut out: Vec<u8> = Vec::new();
    let mut i: usize = 0;
    while i < n
        invariant
            i <= n,
            n == xor_bytes(block@, rk@).len(),
            n <= block@.len(),
            n <= rk@.len(),
            out@ == xor_bytes(block@, rk@).subrange(0, i as int),
        decreases n - i,
    {
        out.push(block[i] ^ rk[i]);
        i += 1;
        proof {
            assert(out@ =~= xor_bytes(block@, rk@).subrange(0, i as int));
        }
    }
    assert(out@ =~= xor_bytes(block@, rk@));
    out
}

/// Encrypts one block with the cached round structures.
pub fn encrypt_block(block: &[u8], ctx: &CipherContext) -> (out: Vec<u8>)
    requires
        context_wf(ctx@),
        block@.len() >= BLOCK_SIZE,
    ensures
        out@ == encrypt_block_spec(block@, ctx@),
        out@.len() == BLOCK_SIZE,
{
    let ghost m = ctx@;
    let mut state: Vec<u8> = Vec::new();
    append_bytes(&mut state, block);
    let mut r: usize = 0;
    while r < ROUNDS
        invariant
            r <= ROUNDS,
            context_wf(m),
            m == ctx@,
            block@.len() >= BLOCK_SIZE,
            state@ == encrypt_rounds(block@, m, r as nat),
            state@.len() >= BLOCK_SIZE,
            r > 0 ==> state@.len() == BLOCK_SIZE,
        decreases ROUNDS - r,
    {
        let mixed = round_transform_no_key(state.as_slice(), ctx, r);
        proof {
            lemma_round_lens(state@, m, r as int);
            assert(round_wf(m, r as int));
        }
        state = xor_key(mixed.as_slice(), &ctx.round_key[r]);
        r += 1;
    }
    state
}

/// Decrypts one block with the cached round structures.
pub fn decrypt_block(block: &[u8], ctx: &CipherContext) -> (out: Vec<u8>)
    requires
        context_wf(ctx@),
        block@.len() >= BLOCK_SIZE,
    ensures
        out@ == decrypt_block_spec(block@, ctx@),
        out@.len() == BLOCK_SIZE,
{
    let ghost m = ctx@;
    let mut state: Vec<u8> = Vec::new();
    append_bytes(&mut state, block);
    let mut r: usize = ROUNDS;
    while r > 0
        invariant
            r <= ROUNDS,
            context_wf(m),
            m == ctx@,
            block@.len() >= BLOCK_SIZE,
            decrypt_rounds(state@, m, r as nat) == decrypt_block_spec(block@, m),
            state@.len() >= BLOCK_SIZE,
            r < ROUNDS ==> state@.len() == BLOCK_SIZE,
        decreases r,
    {
        let i = r - 1;
        proof {
            assert(round_wf(m, i as int));
            lemma_inverse_round_lens(state@, m, i as int);
        }
        let keyed = xor_key(state.as_slice(), &ctx.round_key[i]);
        proof {
            let bp = keyed@.subrange(8, 16);
            lemma_transform_len(bp, m.round_g[i as int]);
        }
        let uncoupled = inverse_reversible_coupling(keyed.as_slice(), &ctx.round_f[i], &ctx.round_g[i]);
        proof {
            let bp = keyed@.subrange(8, 16);
            let a = xor_bytes(keyed@.subrange(0, 8), transform_spec(bp, m.round_g[i as int]));
            lemma_transform_len(a, m.round_f[i as int]);
        }
        let unpermuted = apply_permutation(uncoupled.as_slice(), ctx.round_inv_perm[i].as_slice());
        state = substitute(unpermuted.as_slice(), &ctx.round_inv_sbox[i]);
        r = i;
    }
    state
}

/// Legacy raw single-block ECB encryption. Not secure: identical blocks
/// give identical outputs. Kept only for comparison with the CTR API.
pub fn insecure_ecb_encrypt_single_block(block16: &[u8], ctx: &CipherContext) -> (out: Vec<u8>)
    requires
        context_wf(ctx@),
        block16@.len() == BLOCK_SIZE,
    ensures
        out@ == encrypt_block_spec(block16@, ctx@),
{
    encrypt_block(block16, ctx)
}

} // verus!

verus! {

/// S-box substitution followed by the inverse table gives back the block,
/// and so does the inverse table followed by the S-box.
proof fn lemma_sub_bytes_roundtrip(block: Seq<u8>, sbox: Seq<u8>)
    requires
        is_byte_bijection(sbox),
    ensures
        sub_bytes_spec(sub_bytes_spec(block, sbox), inverse_sbox_spec(sbox)) == block,
        sub_bytes_spec(sub_bytes_spec(block, inverse_sbox_spec(sbox)), sbox) == block,
{
    lemma_inverse_sbox(sbox);
    let inv = inverse_sbox_spec(sbox);
    assert forall|i: int| 0 <= i < block.len() implies #[trigger] sub_bytes_spec(
        sub_bytes_spec(block, sbox),
        inv,
    )[i] == block[i] by {
        assert(inv[sbox[block[i] as int] as int] == block[i] as int);
    }
    assert forall|i: int| 0 <= i < block.len() implies #[trigger] sub_bytes_spec(
        sub_bytes_spec(block, inv),
        sbox,
    )[i] == block[i] by {
        assert(sbox[inv[block[i] as int] as int] == block[i] as int);
    }
    assert(sub_bytes_spec(sub_bytes_spec(block, sbox), inv) =~= block);
    assert(sub_bytes_spec(sub_bytes_spec(block, inv), sbox) =~= block);
}

/// XOR-ing a 16-byte block twice with the same round key gives it back.
proof fn lemma_xor_key_twice(x: Seq<u8>, k: Seq<u8>)
    requires
        x.len() == BLOCK_SIZE,
        k.len() == BLOCK_SIZE,
    ensures
        xor_bytes(xor_bytes(x, k), k) == x,
{
    assert forall|i: int| 0 <= i < BLOCK_SIZE implies #[trigger] xor_bytes(xor_bytes(x, k), k)[i] == x[i] by {
        crate::gf::lemma_xor_zero_eq(x[i], k[i]);
    }
    assert(xor_bytes(xor_bytes(x, k), k) =~= x);
}

/// Each inverse round undoes its round on 16-byte blocks, and each round
/// undoes its inverse round.
proof fn lemma_round_inverse(block: Seq<u8>, m: ContextModel, r: int)
    requires
        context_wf(m),
        context_consistent(m),
        0 <= r < ROUNDS,
        block.len() == BLOCK_SIZE,
    ensures
        inverse_round_spec(round_spec(block, m, r), m, r) == block,
        round_spec(inverse_round_spec(block, m, r), m, r) == block,
{
    assert(round_wf(m, r));
    assert(round_consistent(m, r));
    let s = m.round_sbox[r];
    let p = m.round_perm[r];
    let f = m.round_f[r];
    let g = m.round_g[r];
    let k = m.round_key[r];
    // Forward then inverse.
    let x1 = sub_bytes_spec(block, s);
    let x2 = apply_perm_spec(x1, p);
    let x3 = coupling_spec(x2, f, g);
    lemma_round_lens(block, m, r);
    lemma_xor_key_twice(x3, k);
    lemma_coupling_roundtrip(x2, f, g);
    lemma_apply_inverse_roundtrip(x1, p);
    lemma_sub_bytes_roundtrip(block, s);
    // Inverse then forward.
    let y1 = xor_bytes(block, k);
    let y2 = inverse_coupling_spec(y1, f, g);
    lemma_coupling_roundtrip(y1, f, g);
    lemma_inverse_round_lens(block, m, r);
    let bp = y1.subrange(8, 16);
    lemma_transform_len(bp, g);
    let a = xor_bytes(y1.subrange(0, 8), transform_spec(bp, g));
    lemma_transform_len(a, f);
    let y3 = apply_perm_spec(y2, inverse_perm_spec(p));
    lemma_apply_inverse_roundtrip(y2, p);
    lemma_sub_bytes_roundtrip(y3, s);
    lemma_xor_key_twice(block, k);
}

/// The keyless part of a round is injective on 16-byte blocks.
pub(crate) proof fn lemma_round_no_key_injective(x: Seq<u8>, y: Seq<u8>, m: ContextModel, r: int)
    requires
        context_wf(m),
        context_consistent(m),
        0 <= r < ROUNDS,
        x.len() == BLOCK_SIZE,
        y.len() == BLOCK_SIZE,
        round_no_key_spec(x, m, r) == round_no_key_spec(y, m, r),
    ensures
        x == y,
{
    assert(round_spec(x, m, r) == round_spec(y, m, r));
    lemma_round_inverse(x, m, r);
    lemma_round_inverse(y, m, r);
}

proof fn lemma_rounds_len(block: Seq<u8>, m: ContextModel, n: nat)
    requires
        context_wf(m),
        n <= ROUNDS,
        block.len() == BLOCK_SIZE,
    ensures
        encrypt_rounds(block, m, n).len() == BLOCK_SIZE,
        decrypt_rounds(block, m, n).len() == BLOCK_SIZE,
    decreases n,
{
    if n > 0 {
        lemma_rounds_len(block, m, (n - 1) as nat);
        lemma_round_lens(encrypt_rounds(block, m, (n - 1) as nat), m, n - 1);
        lemma_inverse_round_lens(block, m, n - 1);
        lemma_rounds_len(inverse_round_spec(block, m, n - 1), m, (n - 1) as nat);
    }
}

proof fn lemma_rounds_roundtrip(block: Seq<u8>, m: ContextModel, n: nat)
    requires
        context_wf(m),
        context_consistent(m),
        n <= ROUNDS,
        block.len() == BLOCK_SIZE,
    ensures
        decrypt_rounds(encrypt_rounds(block, m, n), m, n) == block,
        encrypt_rounds(decrypt_rounds(block, m, n), m, n) == block,
    decreases n,
{
    if n > 0 {
        let prev = encrypt_rounds(block, m, (n - 1) as nat);
        lemma_rounds_len(block, m, (n - 1) as nat);
        lemma_round_inverse(prev, m, n - 1);
        lemma_rounds_roundtrip(block, m, (n - 1) as nat);
        let y = inverse_round_spec(block, m, n - 1);
        lemma_inverse_round_lens(block, m, n - 1);
        lemma_rounds_roundtrip(y, m, (n - 1) as nat);
        lemma_round_inverse(block, m, n - 1);
    }
}

/// XOR with a round key never changes a difference: for any two blocks,
/// the difference of their full round outputs is the difference of their
/// keyless round outputs.
pub proof fn lemma_round_key_keeps_difference(x: Seq<u8>, y: Seq<u8>, m: ContextModel, r: int)
    requires
        context_wf(m),
        0 <= r < ROUNDS,
        x.len() >= BLOCK_SIZE,
        y.len() >= BLOCK_SIZE,
    ensures
        xor_bytes(round_spec(x, m, r), round_spec(y, m, r)) == xor_bytes(
            round_no_key_spec(x, m, r),
            round_no_key_spec(y, m, r),
        ),
{
    lemma_round_lens(x, m, r);
    lemma_round_lens(y, m, r);
    assert(round_wf(m, r));
    let k = m.round_key[r];
    let px = round_no_key_spec(x, m, r);
    let py = round_no_key_spec(y, m, r);
    assert forall|i: int| 0 <= i < BLOCK_SIZE implies #[trigger] xor_bytes(round_spec(x, m, r), round_spec(y, m, r))[i]
        == xor_bytes(px, py)[i] by {
        crate::exact::lemma_xor_u8_facts(px[i], k[i], py[i], k[i]);
        crate::exact::lemma_xor_u8_facts(px[i] ^ py[i], 0, 0, 0);
        crate::exact::lemma_xor_u8_facts(k[i], 0, 0, 0);
        assert(round_spec(x, m, r)[i] == px[i] ^ k[i]);
        assert(round_spec(y, m, r)[i] == py[i] ^ k[i]);
    }
    assert(xor_bytes(round_spec(x, m, r), round_spec(y, m, r)) =~= xor_bytes(px, py));
}

/// For a context whose rounds hold their own inverse tables, decrypting a
/// 16-byte block undoes encrypting it, and encrypting undoes decrypting.
pub proof fn lemma_block_roundtrip(block: Seq<u8>, m: ContextModel)
    requires
        context_wf(m),
        context_consistent(m),
        block.len() == BLOCK_SIZE,
    ensures
        decrypt_block_spec(encrypt_block_spec(block, m), m) == block,
        encrypt_block_spec(decrypt_block_spec(block, m), m) == block,
{
    lemma_rounds_roundtrip(block, m, ROUNDS as nat);
}

} // verus!

verus! {

// ============================================================
// CTR mode
// ============================================================

/// The counter block of block number `i`: `nonce ∥ be32(i)`.
pub open spec fn counter_block(nonce: Seq<u8>, i: int) -> Seq<u8> {
    nonce + be32(i as u32)
}

/// Keystream byte `i`: byte `i mod 16` of the encryption of counter block
/// `i / 16`.
pub open spec fn keystream_byte(m: ContextModel, nonce: Seq<u8>, i: int) -> u8 {
    encrypt_block_spec(counter_block(nonce, i / 16), m)[i % 16]
}

/// `data` XOR-ed with the CTR keystream of `nonce`.
pub open spec fn ctr_spec(data: Seq<u8>, m: ContextModel, nonce: Seq<u8>) -> Seq<u8> {
    Seq::new(data.len(), |i: int| data[i] ^ keystream_byte(m, nonce, i))
}

/// Number of 16-byte blocks (the last one possibly partial) in `len` bytes.
pub open spec fn block_count(len: nat) -> nat {
    (len + 15) / 16
}

/// Most blocks one nonce can encrypt: the counter has 32 bits.
pub open spec fn max_ctr_blocks() -> nat {
    0x1_0000_0000
}

/// What CTR encryption of `data` under `nonce` gives.
pub open spec fn ctr_result(data: Seq<u8>, m: ContextModel, nonce: Seq<u8>) -> Result<Seq<u8>, CipherError> {
    if nonce.len() != NONCE_SIZE {
        Err(CipherError::InvalidNonceLength)
    } else if block_count(data.len()) > max_ctr_blocks() {
        Err(CipherError::MessageTooLong)
    } else {
        Ok(ctr_spec(data, m, nonce))
    }
}

/// The value of a byte-vector result.
pub open spec fn bytes_result(r: Result<Vec<u8>, CipherError>) -> Result<Seq<u8>, CipherError> {
    match r {
        Ok(v) => Ok(v@),
        Err(e) => Err(e),
    }
}

/// XORs `data` with the CTR keystream of `nonce` (encryption and
/// decryption are the same operation).
fn ctr_keystream_xor(data: &[u8], ctx: &CipherContext, nonce: &[u8]) -> (r: Result<Vec<u8>, CipherError>)
    requires
        context_wf(ctx@),
    ensures
        bytes_result(r) == ctr_result(data@, ctx@, nonce@),
{
    if nonce.len() != NONCE_SIZE {
        return Err(CipherError::InvalidNonceLength);
    }
    let len = data.len();
    let n_blocks: u64 = (len / BLOCK_SIZE) as u64 + if len % BLOCK_SIZE != 0 {
        1u64
    } else {
        0u64
    };
    assert(n_blocks == block_count(len as nat));
    if n_blocks > 0x1_0000_0000u64 {
        return Err(CipherError::MessageTooLong);
    }
    let ghost m = ctx@;
    let ghost expected = ctr_spec(data@, m, nonce@);
    let mut output: Vec<u8> = Vec::new();
    let mut start: usize = 0;
    let mut counter: u64 = 0;
    while start < len
        invariant
            len == data@.len(),
            nonce@.len() == NONCE_SIZE,
            context_wf(m),
            m == ctx@,
            expected == ctr_spec(data@, m, nonce@),
            block_count(len as nat) <= max_ctr_blocks(),
            start <= len,
            start == len || start == counter * 16,
            output@ == expected.subrange(0, start as int),
        decreases len - start,
    {
        assert(counter < 0x1_0000_0000) by (nonlinear_arith)
            requires
                start == counter * 16,
                start < len,
                (len + 15) / 16 <= 0x1_0000_0000,
        ;
        let mut cb: Vec<u8> = Vec::new();
        append_bytes(&mut cb, nonce);
        push_be32(&mut cb, counter as u32);
        let keystream = encrypt_block(cb.as_slice(), ctx);
        proof {
            assert(cb@ == counter_block(nonce@, counter as int));
        }
        let end: usize = if len - start < BLOCK_SIZE {
            len
        } else {
            start + BLOCK_SIZE
        };
        let mut j: usize = start;
        while j < end
            invariant
                len == data@.len(),
                start <= j <= end,
                end <= len,
                end <= start + 16,
                start == counter * 16,
                keystream@ == encrypt_block_spec(counter_block(nonce@, counter as int), m),
                keystream@.len() == BLOCK_SIZE,
                expected == ctr_spec(data@, m, nonce@),
                output@ == expected.subrange(0, j as int),
            decreases end - j,
        {
            proof {
                assert((j as int) / 16 == counter && (j as int) % 16 == j - start) by (nonlinear_arith)
                    requires
                        start == counter * 16,
                        start <= j < start + 16,
                ;
            }
            output.push(data[j] ^ keystream[j - start]);
            j += 1;
            proof {
                assert(output@ =~= expected.subrange(0, j as int));
            }
        }
        start = end;
        counter = counter + 1;
    }
    assert(output@ =~= expected);
    Ok(output)
}

} // verus!

verus! {

// ============================================================
// Message authentication
// ============================================================

/// Byte `index` of HMAC-SHA256 of `data` under `key`.
pub uninterp spec fn hmac_sha256_byte(key: Seq<u8>, data: Seq<u8>, index: nat) -> u8;

/// HMAC-SHA256 of `data` under `key`: 32 bytes.
pub open spec fn hmac_sha256(key: Seq<u8>, data: Seq<u8>) -> Seq<u8> {
    Seq::new(TAG_SIZE as nat, |i: int| hmac_sha256_byte(key, data, i as nat))
}

/// Calls `hmac::Hmac::<sha2::Sha256>`: `Mac::new_from_slice(mac_key)`,
/// `Mac::update(data)`, then `finalize().into_bytes()`. Claimed: the tag
/// has 32 bytes and is HMAC-SHA256 of `data` under `mac_key`, a function
/// of the two byte strings alone. (`new_from_slice` accepts keys of every
/// length for HMAC.)
#[verifier::external_body]
fn hmac_tag(mac_key: &[u8], data: &[u8]) -> (tag: Vec<u8>)
    ensures
        tag@.len() == TAG_SIZE,
        forall|i: int| 0 <= i < TAG_SIZE ==> #[trigger] tag@[i] == hmac_sha256_byte(mac_key@, data@, i as nat),
{
    let mut mac = <Hmac<Sha256> as Mac>::new_from_slice(mac_key).expect("HMAC accepts any key length");
    Mac::update(&mut mac, data);
    mac.finalize().into_bytes().to_vec()
}

/// Compares two byte strings without an early exit on the first
/// difference.
fn constant_time_eq(a: &[u8], b: &[u8]) -> (r: bool)
    ensures
        r == (a@ == b@),
{
    if a.len() != b.len() {
        return false;
    }
    let mut diff: u8 = 0;
    let mut i: usize = 0;
    while i < a.len()
        invariant
            i <= a@.len(),
            a@.len() == b@.len(),
            diff == 0 <==> forall|j: int| 0 <= j < i ==> a@[j] == b@[j],
        decreases a@.len() - i,
    {
        let x = a[i];
        let y = b[i];
        let d = diff;
        assert((d | (x ^ y)) == 0 <==> (d == 0 && x == y)) by (bit_vector);
        diff = diff | (x ^ y);
        i += 1;
        proof {
            if diff == 0 {
                assert forall|j: int| 0 <= j < i implies a@[j] == b@[j] by {
                    if j < i - 1 {
                    }
                }
            }
        }
    }
    if diff == 0 {
        assert(a@ =~= b@);
    }
    diff == 0
}

// ============================================================
// Authenticated encryption (encrypt-then-MAC over CTR)
// ============================================================

/// `nonce ∥ CTR(plaintext) ∥ HMAC(mac_key, nonce ∥ CTR(plaintext))`.
pub open spec fn seal_spec(plaintext: Seq<u8>, m: ContextModel, nonce: Seq<u8>) -> Result<Seq<u8>, CipherError> {
    match ctr_result(plaintext, m, nonce) {
        Ok(ct) => Ok(nonce + ct + hmac_sha256(m.mac_key, nonce + ct)),
        Err(e) => Err(e),
    }
}

/// Checks the tag at the end of `blob` against the nonce and ciphertext
/// before it, then decrypts the ciphertext.
pub open spec fn open_spec(blob: Seq<u8>, m: ContextModel) -> Result<Seq<u8>, CipherError> {
    let nonce = blob.subrange(0, NONCE_SIZE as int);
    let ct = blob.subrange(NONCE_SIZE as int, blob.len() - TAG_SIZE);
    let tag = blob.subrange(blob.len() - TAG_SIZE, blob.len() as int);
    if tag != hmac_sha256(m.mac_key, nonce + ct) {
        Err(CipherError::AuthenticationFailed)
    } else {
        ctr_result(ct, m, nonce)
    }
}

/// The context a call works with: the one given, else the one derived
/// from `key` under the default topology constraints.
pub open spec fn resolve_context(key: Seq<u8>, ctx: Option<ContextModel>) -> Result<ContextModel, CipherError> {
    match ctx {
        Some(m) => Ok(m),
        None => context_result(key, default_constraints()),
    }
}

pub open spec fn ctx_view(ctx: Option<&CipherContext>) -> Option<ContextModel> {
    match ctx {
        Some(c) => Some(c@),
        None => None,
    }
}

/// What `encrypt` gives with an explicit nonce.
pub open spec fn encrypt_result(plaintext: Seq<u8>, key: Seq<u8>, ctx: Option<ContextModel>, nonce: Seq<u8>) -> Result<
    Seq<u8>,
    CipherError,
> {
    match resolve_context(key, ctx) {
        Ok(m) => seal_spec(plaintext, m, nonce),
        Err(e) => Err(e),
    }
}

/// What `decrypt` gives.
pub open spec fn decrypt_result(blob: Seq<u8>, key: Seq<u8>, ctx: Option<ContextModel>) -> Result<Seq<u8>, CipherError> {
    if blob.len() < NONCE_SIZE + TAG_SIZE {
        Err(CipherError::CiphertextTooShort)
    } else {
        match resolve_context(key, ctx) {
            Ok(m) => open_spec(blob, m),
            Err(e) => Err(e),
        }
    }
}

/// Calls `rand::thread_rng().fill_bytes` on an `n`-byte buffer. Claimed:
/// the result has `n` bytes; nothing is claimed of their values, which
/// come from the operating system's random source (`thread_rng` panics if
/// that source cannot be initialised).
#[verifier::external_body]
pub(crate) fn random_bytes(n: usize) -> (out: Vec<u8>)
    ensures
        out@.len() == n,
{
    let mut out = vec![0u8; n];
    rand::thread_rng().fill_bytes(&mut out);
    out
}

/// A fresh random 256-bit key.
pub fn generate_key() -> (key: Vec<u8>)
    ensures
        key@.len() == KEY_SIZE,
{
    random_bytes(KEY_SIZE)
}

/// A fresh random 96-bit nonce.
pub fn generate_nonce() -> (nonce: Vec<u8>)
    ensures
        nonce@.len() == NONCE_SIZE,
{
    random_bytes(NONCE_SIZE)
}

/// Seals `plaintext` under `ctx` and `nonce`.
fn seal(plaintext: &[u8], ctx: &CipherContext, nonce: &[u8]) -> (r: Result<Vec<u8>, CipherError>)
    requires
        context_wf(ctx@),
    ensures
        bytes_result(r) == seal_spec(plaintext@, ctx@, nonce@),
{
    let ciphertext = match ctr_keystream_xor(plaintext, ctx, nonce) {
        Ok(c) => c,
        Err(e) => {
            return Err(e);
        },
    };
    let mut mac_input: Vec<u8> = Vec::new();
    append_bytes(&mut mac_input, nonce);
    append_bytes(&mut mac_input, ciphertext.as_slice());
    let tag = hmac_tag(ctx.mac_key.as_slice(), mac_input.as_slice());
    let mut out: Vec<u8> = Vec::new();
    append_bytes(&mut out, nonce);
    append_bytes(&mut out, ciphertext.as_slice());
    append_bytes(&mut out, tag.as_slice());
    proof {
        assert(tag@ =~= hmac_sha256(ctx@.mac_key, nonce@ + ciphertext@));
    }
    Ok(out)
}

/// Checks and decrypts `blob` (at least 44 bytes) under `ctx`.
fn open_blob(blob: &[u8], ctx: &CipherContext) -> (r: Result<Vec<u8>, CipherError>)
    requires
        context_wf(ctx@),
        blob@.len() >= NONCE_SIZE + TAG_SIZE,
    ensures
        bytes_result(r) == open_spec(blob@, ctx@),
{
    let len = blob.len();
    let nonce = &blob[0..NONCE_SIZE];
    let ciphertext = &blob[NONCE_SIZE..len - TAG_SIZE];
    let tag = &blob[len - TAG_SIZE..len];
    let mut mac_input: Vec<u8> = Vec::new();
    append_bytes(&mut mac_input, nonce);
    append_bytes(&mut mac_input, ciphertext);
    let expected_tag = hmac_tag(ctx.mac_key.as_slice(), mac_input.as_slice());
    proof {
        assert(expected_tag@ =~= hmac_sha256(ctx@.mac_key, nonce@ + ciphertext@));
    }
    if !constant_time_eq(tag, expected_tag.as_slice()) {
        return Err(CipherError::AuthenticationFailed);
    }
    ctr_keystream_xor(ciphertext, ctx, nonce)
}

/// Authenticated encryption. Returns `nonce ∥ ciphertext ∥ tag`: the
/// ciphertext is CTR mode under the nonce, the tag HMAC-SHA256 over
/// `nonce ∥ ciphertext` with the context's MAC key. Without a context one
/// is derived from `key`; without a nonce a fresh random one is used.
pub fn encrypt(plaintext: &[u8], key: &[u8], ctx: Option<&CipherContext>, nonce: Option<&[u8]>) -> (r: Result<
    Vec<u8>,
    CipherError,
>)
    requires
        ctx matches Some(c) ==> context_wf(c@),
    ensures
        match nonce {
            Some(n) => bytes_result(r) == encrypt_result(plaintext@, key@, ctx_view(ctx), n@),
            None => match resolve_context(key@, ctx_view(ctx)) {
                Err(e) => r == Err::<Vec<u8>, CipherError>(e),
                Ok(m) => if block_count(plaintext@.len()) > max_ctr_blocks() {
                    r == Err::<Vec<u8>, CipherError>(CipherError::MessageTooLong)
                } else {
                    &&& r is Ok
                    &&& r->Ok_0@.len() >= NONCE_SIZE
                    &&& seal_spec(plaintext@, m, r->Ok_0@.subrange(0, NONCE_SIZE as int)) == Ok::<
                        Seq<u8>,
                        CipherError,
                    >(r->Ok_0@)
                },
            },
        },
{
    match ctx {
        Some(c) => encrypt_in(plaintext, c, nonce),
        None => {
            let owned = match CipherContext::new(key) {
                Ok(c) => c,
                Err(e) => {
                    return Err(e);
                },
            };
            encrypt_in(plaintext, &owned, nonce)
        },
    }
}

/// `encrypt` once the context is known.
fn encrypt_in(plaintext: &[u8], ctx: &CipherContext, nonce: Option<&[u8]>) -> (r: Result<Vec<u8>, CipherError>)
    requires
        context_wf(ctx@),
    ensures
        match nonce {
            Some(n) => bytes_result(r) == seal_spec(plaintext@, ctx@, n@),
            None => if block_count(plaintext@.len()) > max_ctr_blocks() {
                r == Err::<Vec<u8>, CipherError>(CipherError::MessageTooLong)
            } else {
                &&& r is Ok
                &&& r->Ok_0@.len() >= NONCE_SIZE
                &&& seal_spec(plaintext@, ctx@, r->Ok_0@.subrange(0, NONCE_SIZE as int)) == Ok::<
                    Seq<u8>,
                    CipherError,
                >(r->Ok_0@)
            },
        },
{
    match nonce {
        Some(n) => seal(plaintext, ctx, n),
        None => {
            let fresh = generate_nonce();
            let r = seal(plaintext, ctx, fresh.as_slice());
            proof {
                if r is Ok {
                    assert(r->Ok_0@.subrange(0, NONCE_SIZE as int) =~= fresh@);
                }
            }
            r
        },
    }
}

/// Checks the tag of `nonce ∥ ciphertext ∥ tag` and decrypts the
/// ciphertext. Without a context one is derived from `key`.
pub fn decrypt(blob: &[u8], key: &[u8], ctx: Option<&CipherContext>) -> (r: Result<Vec<u8>, CipherError>)
    requires
        ctx matches Some(c) ==> context_wf(c@),
    ensures
        bytes_result(r) == decrypt_result(blob@, key@, ctx_view(ctx)),
{
    if blob.len() < NONCE_SIZE + TAG_SIZE {
        return Err(CipherError::CiphertextTooShort);
    }
    match ctx {
        Some(c) => open_blob(blob, c),
        None => {
            let owned = match CipherContext::new(key) {
                Ok(c) => c,
                Err(e) => {
                    return Err(e);
                },
            };
            open_blob(blob, &owned)
        },
    }
}

} // verus!

verus! {

/// The CTR transform XORs byte `i` with byte `i mod 16` of the encryption
/// of counter block `nonce ∥ be32(i / 16)`, keeps the length, and is its
/// own inverse: applying it to its output with the same context and nonce
/// gives the data back.
pub proof fn lemma_ctr_transform_involution(data: Seq<u8>, m: ContextModel, nonce: Seq<u8>)
    requires
        ctr_result(data, m, nonce) is Ok,
    ensures
        ctr_result(data, m, nonce)->Ok_0.len() == data.len(),
        forall|i: int|
            0 <= i < data.len() ==> #[trigger] ctr_result(data, m, nonce)->Ok_0[i] == data[i] ^ encrypt_block_spec(
                counter_block(nonce, i / 16),
                m,
            )[i % 16],
        ctr_result(ctr_result(data, m, nonce)->Ok_0, m, nonce) == Ok::<Seq<u8>, CipherError>(data),
{
    lemma_ctr_involution(data, m, nonce);
}

/// Distinct counter blocks give distinct keystream blocks: for a context
/// whose rounds hold their own inverse tables, the keystream blocks of
/// `(nonce1, i)` and `(nonce2, j)`, with 12-byte nonces and block indices
/// below 2^32, are equal exactly when the nonces and the indices are.
pub proof fn lemma_distinct_counters_distinct_keystream(
    m: ContextModel,
    nonce1: Seq<u8>,
    i: int,
    nonce2: Seq<u8>,
    j: int,
)
    requires
        context_wf(m),
        context_consistent(m),
        nonce1.len() == NONCE_SIZE,
        nonce2.len() == NONCE_SIZE,
        0 <= i < max_ctr_blocks(),
        0 <= j < max_ctr_blocks(),
    ensures
        encrypt_block_spec(counter_block(nonce1, i), m) == encrypt_block_spec(counter_block(nonce2, j), m)
            <==> (nonce1 == nonce2 && i == j),
{
    let c1 = counter_block(nonce1, i);
    let c2 = counter_block(nonce2, j);
    if encrypt_block_spec(c1, m) == encrypt_block_spec(c2, m) {
        lemma_block_roundtrip(c1, m);
        lemma_block_roundtrip(c2, m);
        assert(c1 == c2);
        assert(nonce1 =~= c1.subrange(0, NONCE_SIZE as int));
        assert(nonce2 =~= c2.subrange(0, NONCE_SIZE as int));
        assert(be32(i as u32) =~= c1.subrange(NONCE_SIZE as int, BLOCK_SIZE as int));
        assert(be32(j as u32) =~= c2.subrange(NONCE_SIZE as int, BLOCK_SIZE as int));
        lemma_be32_injective(i as u32, j as u32);
    }
}

/// Equal 16-byte plaintext chunks encrypted in CTR mode under distinct
/// counter blocks give distinct ciphertext chunks: chunk `k` of `data1`
/// under `nonce1` and chunk `l` of `data2` under `nonce2` differ whenever
/// the plaintext chunks are equal and `(nonce1, k) != (nonce2, l)`.
pub proof fn lemma_ctr_equal_chunks_differ(
    m: ContextModel,
    data1: Seq<u8>,
    nonce1: Seq<u8>,
    k: int,
    data2: Seq<u8>,
    nonce2: Seq<u8>,
    l: int,
)
    requires
        context_wf(m),
        context_consistent(m),
        ctr_result(data1, m, nonce1) is Ok,
        ctr_result(data2, m, nonce2) is Ok,
        0 <= k,
        16 * k + 16 <= data1.len(),
        0 <= l,
        16 * l + 16 <= data2.len(),
        data1.subrange(16 * k, 16 * k + 16) == data2.subrange(16 * l, 16 * l + 16),
        nonce1 != nonce2 || k != l,
    ensures
        ctr_result(data1, m, nonce1)->Ok_0.subrange(16 * k, 16 * k + 16) != ctr_result(data2, m, nonce2)->Ok_0.subrange(
            16 * l,
            16 * l + 16,
        ),
{
    let ct1 = ctr_spec(data1, m, nonce1);
    let ct2 = ctr_spec(data2, m, nonce2);
    assert(k < max_ctr_blocks()) by {
        assert(block_count(data1.len()) <= max_ctr_blocks());
        assert((data1.len() + 15) / 16 >= k + 1) by (nonlinear_arith)
            requires
                16 * k + 16 <= data1.len(),
                k >= 0,
        ;
    }
    assert(l < max_ctr_blocks()) by {
        assert(block_count(data2.len()) <= max_ctr_blocks());
        assert((data2.len() + 15) / 16 >= l + 1) by (nonlinear_arith)
            requires
                16 * l + 16 <= data2.len(),
                l >= 0,
        ;
    }
    let e1 = encrypt_block_spec(counter_block(nonce1, k), m);
    let e2 = encrypt_block_spec(counter_block(nonce2, l), m);
    lemma_distinct_counters_distinct_keystream(m, nonce1, k, nonce2, l);
    if ct1.subrange(16 * k, 16 * k + 16) == ct2.subrange(16 * l, 16 * l + 16) {
        lemma_rounds_len(counter_block(nonce1, k), m, ROUNDS as nat);
        lemma_rounds_len(counter_block(nonce2, l), m, ROUNDS as nat);
        assert forall|t: int| 0 <= t < BLOCK_SIZE implies e1[t] == e2[t] by {
            let p = 16 * k + t;
            let q = 16 * l + t;
            assert(p / 16 == k && p % 16 == t) by (nonlinear_arith)
                requires
                    p == 16 * k + t,
                    0 <= t < 16,
            ;
            assert(q / 16 == l && q % 16 == t) by (nonlinear_arith)
                requires
                    q == 16 * l + t,
                    0 <= t < 16,
            ;
            assert(ct1[p] == ct1.subrange(16 * k, 16 * k + 16)[t]);
            assert(ct2[q] == ct2.subrange(16 * l, 16 * l + 16)[t]);
            assert(data1[p] == data1.subrange(16 * k, 16 * k + 16)[t]);
            assert(data2[q] == data2.subrange(16 * l, 16 * l + 16)[t]);
            let x = data1[p];
            assert(ct1[p] == x ^ e1[t]);
            assert(ct2[q] == x ^ e2[t]);
            assert(ct1[p] == ct2[q]);
            crate::exact::lemma_xor_u8_facts(x, e1[t], x, e2[t]);
            crate::exact::lemma_xor_u8_facts(e1[t] ^ e2[t], 0, 0, 0);
            crate::exact::lemma_xor_u8_facts(x, 0, 0, 0);
            crate::exact::lemma_xor_u8_facts(x ^ e1[t], 0, 0, 0);
            assert(e1[t] ^ e2[t] == 0);
            crate::gf::lemma_xor_zero_eq(e1[t], e2[t]);
        }
        assert(e1 =~= e2);
    }
}

/// XOR-ing with the same CTR keystream twice gives the data back.
proof fn lemma_ctr_involution(data: Seq<u8>, m: ContextModel, nonce: Seq<u8>)
    ensures
        ctr_spec(ctr_spec(data, m, nonce), m, nonce) == data,
{
    let once = ctr_spec(data, m, nonce);
    assert forall|i: int| 0 <= i < data.len() implies #[trigger] ctr_spec(once, m, nonce)[i] == data[i] by {
        crate::gf::lemma_xor_zero_eq(data[i], keystream_byte(m, nonce, i));
    }
    assert(ctr_spec(once, m, nonce) =~= data);
}

/// Opening a sealed message gives back the plaintext; the sealed message
/// is 44 bytes longer than the plaintext.
pub proof fn lemma_open_seal(plaintext: Seq<u8>, m: ContextModel, nonce: Seq<u8>)
    requires
        seal_spec(plaintext, m, nonce) is Ok,
    ensures
        seal_spec(plaintext, m, nonce)->Ok_0.len() == plaintext.len() + NONCE_SIZE + TAG_SIZE,
        open_spec(seal_spec(plaintext, m, nonce)->Ok_0, m) == Ok::<Seq<u8>, CipherError>(plaintext),
{
    let ct = ctr_spec(plaintext, m, nonce);
    let tag = hmac_sha256(m.mac_key, nonce + ct);
    let blob = nonce + ct + tag;
    assert(blob.subrange(0, NONCE_SIZE as int) =~= nonce);
    assert(blob.subrange(NONCE_SIZE as int, blob.len() - TAG_SIZE) =~= ct);
    assert(blob.subrange(blob.len() - TAG_SIZE, blob.len() as int) =~= tag);
    lemma_ctr_involution(plaintext, m, nonce);
}

/// Decrypting what `encrypt` produced, under the same key and context,
/// gives back the plaintext.
pub proof fn lemma_decrypt_encrypt(plaintext: Seq<u8>, key: Seq<u8>, ctx: Option<ContextModel>, nonce: Seq<u8>)
    requires
        encrypt_result(plaintext, key, ctx, nonce) is Ok,
    ensures
        decrypt_result(encrypt_result(plaintext, key, ctx, nonce)->Ok_0, key, ctx) == Ok::<
            Seq<u8>,
            CipherError,
        >(plaintext),
{
    let m = resolve_context(key, ctx)->Ok_0;
    lemma_open_seal(plaintext, m, nonce);
}

} // verus!
