# kgrtc

KGRTC (Key-Generated Reversible Transformer Cipher) is an experimental
block-cipher construction whose S-boxes, permutations, round keys and the
shape, topology and weights of its nonlinear F/G networks are all derived
from a 256-bit key. It is research software: do not use it to protect real
data.

The library is written in Verus. Every function in `src/` carries a
contract over mathematical models (`Seq`, `Map`, spec functions) and is
proved against it; the laws of the construction are public proof
functions.

## Layout

- `src/gf.rs`: GF(2^8) multiplication and inversion, GF(2) matrices.
- `src/kdf.rs`: the SHAKE-256 byte stream and integer derivation.
- `src/permutation.rs`, `src/sbox.rs`: key-derived permutations and affine
  inversion S-boxes, with their inverses.
- `src/transformer.rs`, `src/topology.rs`, `src/generation.rs`: the F/G
  networks, their structural screening and their key-derived generation.
- `src/cipher.rs`: the per-key context, single-block encryption and
  decryption, CTR mode and the encrypt-then-MAC interface.
- `src/analyzer.rs`, `src/span.rs`, `src/exact.rs`: S-box metrics,
  structural diffusion, weight statistics and the exact layer-0
  differential classification.
- `src/affine.rs`: why every generated S-box has the metrics of the
  GF(2^8) inversion.
- `src/sampling.rs`: randomised differential statistics and their tallies.
- `tests/`: example vectors, round trips, S-box quality, topology and
  analysis tests.
- `app/`: float-valued reports, `Display` for errors and the printing
  per-key analysis, built on the library.

Main laws: decryption undoes encryption (blocks and messages), the CTR
transform is its own inverse, distinct counter blocks give distinct
keystream blocks (so equal plaintext chunks never give equal ciphertext
chunks under distinct counters), GF(2^8) multiplication is commutative and
associative with unit 1, an output of a transformer depends on no input
outside its dependency set, the F/G coupling, permutations and S-boxes
are undone by their inverses, every generated S-box is a bijection with
the differential uniformity, linearity, algebraic degree and
autocorrelation of the GF(2^8) inversion, every generated transformer has
2 to 4 layers and heads with three distinct sources and nonzero weights
per node, a round key never changes a difference, a keyless round turns
a nonzero difference into a nonzero difference, the topology search
accepts the first candidate that passes its constraints (or, when none
does, one that no other candidate outscores), the structural screening
agrees with the diffusion report, and the exact layer-0 classification
agrees with the actual output differences.
