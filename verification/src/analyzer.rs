//! Structural analyzer for key-generated architectures: diffusion
//! coverage, dead inputs, S-box quality metrics (bijectivity, fixed
//! points, differential uniformity, linearity, algebraic degree,
//! autocorrelation, cycle structure) and the exact layer-0 differential
//! classification of a transformer.
//!
//! These are structural sanity checks, not a cryptanalytic security proof.

use crate::gf::bit_of;
use crate::topology::{
    dep_layer, dep_masks, masks_or, node_mask, popcount8, popcount_u8, unit_masks, unreached_below,
};
use crate::transformer::{
    heads_xor, layer_spec, node_acc, node_len, node_output, transform_layers, transform_spec, transformer_wf,
    ConnectionsView, GeneratedTransformer, NodeView, TransformerModel,
};
use crate::topology::{evaluate_spec, heads_or, sources_or};
use std::collections::{HashMap, HashSet};
use vstd::prelude::*;

pub use crate::exact::{
    exact_layer0_active_status, exact_layer0_single_byte_sweep, ExactActiveStatus, Layer0ExactSweep,
};

verus! {

// ============================================================
// Bit counts
// ============================================================

/// Number of ones in the binary representation of `v`.
pub open spec fn bit_count(v: nat) -> nat
    decreases v,
{
    if v == 0 {
        0
    } else {
        v % 2 + bit_count(v / 2)
    }
}

/// Parity (0 or 1) of the number of ones of `v`.
pub open spec fn parity_of(v: usize) -> nat {
    bit_count(v as nat) % 2
}

/// Number of ones in the binary representation of `v`.
fn count_ones(v: usize) -> (c: u32)
    ensures
        c == bit_count(v as nat),
{
    let mut x: usize = v;
    let mut c: u32 = 0;
    proof {
        vstd::arithmetic::power2::lemma2_to64();
        lemma_bit_count_bound(v as nat, 0x1_0000_0000_0000_0000, 64);
    }
    while x > 0
        invariant
            c + bit_count(x as nat) == bit_count(v as nat),
            bit_count(v as nat) <= 64,
        decreases x,
    {
        c = c + (x % 2) as u32;
        x = x / 2;
    }
    c
}

// ============================================================
// Fixed points and bijectivity
// ============================================================

/// `sbox` lists each of `0, 1, ..., len - 1` exactly once (so it has at
/// most 256 entries).
pub open spec fn is_arrangement(sbox: Seq<u8>) -> bool {
    &&& sbox.len() <= 256
    &&& forall|i: int| 0 <= i < sbox.len() ==> #[trigger] sbox[i] < sbox.len()
    &&& forall|i: int, j: int|
        0 <= i < sbox.len() && 0 <= j < sbox.len() && i != j ==> #[trigger] sbox[i] != #[trigger] sbox[j]
}

/// Whether the S-box is a bijection of `{0, ..., len - 1}`.
pub fn sbox_is_bijective(sbox: &[u8]) -> (r: bool)
    ensures
        r == is_arrangement(sbox@),
{
    let n = sbox.len();
    if n > 256 {
        return false;
    }
    let mut seen: Vec<bool> = Vec::new();
    let mut k: usize = 0;
    while k < 256
        invariant
            k <= 256,
            seen@.len() == k,
            forall|v: int| 0 <= v < k ==> !(#[trigger] seen@[v]),
        decreases 256 - k,
    {
        seen.push(false);
        k += 1;
    }
    let mut i: usize = 0;
    while i < n
        invariant
            n == sbox@.len(),
            n <= 256,
            i <= n,
            seen@.len() == 256,
            forall|v: int| 0 <= v < 256 ==> (#[trigger] seen@[v] <==> exists|j: int| 0 <= j < i && sbox@[j] == v),
            forall|j: int| 0 <= j < i ==> #[trigger] sbox@[j] < n,
            forall|j1: int, j2: int| 0 <= j1 < i && 0 <= j2 < i && j1 != j2 ==> #[trigger] sbox@[j1] != #[trigger] sbox@[j2],
        decreases n - i,
    {
        let v = sbox[i];
        if v as usize >= n {
            return false;
        }
        if seen[v as usize] {
            proof {
                let j = choose|j: int| 0 <= j < i && sbox@[j] == v;
                assert(sbox@[j] == sbox@[i as int]);
            }
            return false;
        }
        seen.set(v as usize, true);
        i += 1;
        proof {
            assert forall|w: int| 0 <= w < 256 implies (#[trigger] seen@[w] <==> exists|j: int| 0 <= j < i && sbox@[j] == w) by {
                if w == v {
                    assert(sbox@[i - 1] == w);
                } else if seen@[w] {
                    let j = choose|j: int| 0 <= j < i - 1 && sbox@[j] == w;
                    assert(0 <= j < i && sbox@[j] == w);
                }
            }
        }
    }
    true
}

/// Number of positions `x < k` with `sbox[x] == x mod 256`.
pub open spec fn fixed_points_below(sbox: Seq<u8>, k: nat) -> nat
    decreases k,
{
    if k == 0 {
        0
    } else {
        fixed_points_below(sbox, (k - 1) as nat) + if sbox[k - 1] == #[verifier::truncate] ((k - 1) as u8) {
            1nat
        } else {
            0nat
        }
    }
}

/// Number of positions `x < k` with `sbox[x] == (x mod 256) XOR 0xFF`.
pub open spec fn opposite_fixed_points_below(sbox: Seq<u8>, k: nat) -> nat
    decreases k,
{
    if k == 0 {
        0
    } else {
        opposite_fixed_points_below(sbox, (k - 1) as nat) + if sbox[k - 1] == (#[verifier::truncate] ((k
            - 1) as u8)) ^ 0xffu8 {
            1nat
        } else {
            0nat
        }
    }
}

/// Number of fixed points `S(x) = x`.
pub fn sbox_fixed_points(sbox: &[u8]) -> (r: usize)
    ensures
        r == fixed_points_below(sbox@, sbox@.len()),
        r == fixed_point_positions(sbox@, sbox@.len()).len(),
{
    proof {
        lemma_fixed_points_are_counted(sbox@, sbox@.len());
    }
    let mut count: usize = 0;
    let mut i: usize = 0;
    while i < sbox.len()
        invariant
            i <= sbox@.len(),
            count == fixed_points_below(sbox@, i as nat),
            count <= i,
        decreases sbox@.len() - i,
    {
        if sbox[i] == #[verifier::truncate] (i as u8) {
            count += 1;
        }
        i += 1;
    }
    count
}

/// Count of x where `S(x) = x XOR 0xFF`, the bitwise-complement analogue
/// of a fixed point.
pub fn sbox_opposite_fixed_points(sbox: &[u8]) -> (r: usize)
    ensures
        r == opposite_fixed_points_below(sbox@, sbox@.len()),
        r == opposite_fixed_point_positions(sbox@, sbox@.len()).len(),
{
    proof {
        lemma_opposite_fixed_points_are_counted(sbox@, sbox@.len());
    }
    let mut count: usize = 0;
    let mut i: usize = 0;
    while i < sbox.len()
        invariant
            i <= sbox@.len(),
            count == opposite_fixed_points_below(sbox@, i as nat),
            count <= i,
        decreases sbox@.len() - i,
    {
        if sbox[i] == (#[verifier::truncate] (i as u8)) ^ 0xff {
            count += 1;
        }
        i += 1;
    }
    count
}

/// Number of nonzero bytes of a difference (how many byte positions of
/// the two related states differ).
pub open spec fn active_below(diff: Seq<u8>, k: nat) -> nat
    decreases k,
{
    if k == 0 {
        0
    } else {
        active_below(diff, (k - 1) as nat) + if diff[k - 1] != 0 {
            1nat
        } else {
            0nat
        }
    }
}

/// Counts the nonzero bytes of a byte difference.
pub fn active_bytes(diff: &[u8]) -> (r: usize)
    ensures
        r == active_below(diff@, diff@.len()),
        r == nonzero_positions(diff@, diff@.len()).len(),
{
    proof {
        lemma_active_bytes_are_counted(diff@, diff@.len());
    }
    let mut count: usize = 0;
    let mut i: usize = 0;
    while i < diff.len()
        invariant
            i <= diff@.len(),
            count == active_below(diff@, i as nat),
            count <= i,
        decreases diff@.len() - i,
    {
        if diff[i] != 0 {
            count += 1;
        }
        i += 1;
    }
    count
}

/// The positions `x < k` where `sbox` maps `x` to itself, every bit of the
/// entry compared with `x` taken as a byte.
pub open spec fn fixed_point_positions(sbox: Seq<u8>, k: nat) -> Set<int> {
    Set::new(|x: int| 0 <= x < k && sbox[x] == #[verifier::truncate] (x as u8))
}

/// The positions `x < k` where `sbox` maps `x` to its bitwise complement.
pub open spec fn opposite_fixed_point_positions(sbox: Seq<u8>, k: nat) -> Set<int> {
    Set::new(|x: int| 0 <= x < k && sbox[x] == (#[verifier::truncate] (x as u8)) ^ 0xffu8)
}

/// The positions `x < k` where the difference `diff` is nonzero.
pub open spec fn nonzero_positions(diff: Seq<u8>, k: nat) -> Set<int> {
    Set::new(|x: int| 0 <= x < k && diff[x] != 0)
}

/// The fixed-point count of an S-box is the number of positions `x` whose
/// entry equals `x` in every bit: `|{x < k : S(x) = x}|`.
pub proof fn lemma_fixed_points_are_counted(sbox: Seq<u8>, k: nat)
    ensures
        fixed_point_positions(sbox, k).finite(),
        fixed_points_below(sbox, k) == fixed_point_positions(sbox, k).len(),
    decreases k,
{
    if k == 0 {
        assert(fixed_point_positions(sbox, 0) =~= Set::<int>::empty());
    } else {
        let j = (k - 1) as nat;
        lemma_fixed_points_are_counted(sbox, j);
        assert(!fixed_point_positions(sbox, j).contains(j as int));
        if sbox[j as int] == #[verifier::truncate] (j as u8) {
            assert(fixed_point_positions(sbox, k) =~= fixed_point_positions(sbox, j).insert(j as int));
        } else {
            assert(fixed_point_positions(sbox, k) =~= fixed_point_positions(sbox, j));
        }
    }
}

/// The opposite-fixed-point count is the number of positions `x` whose
/// entry is the complement of `x`: `|{x < k : S(x) = x XOR 0xFF}|`.
pub proof fn lemma_opposite_fixed_points_are_counted(sbox: Seq<u8>, k: nat)
    ensures
        opposite_fixed_point_positions(sbox, k).finite(),
        opposite_fixed_points_below(sbox, k) == opposite_fixed_point_positions(sbox, k).len(),
    decreases k,
{
    if k == 0 {
        assert(opposite_fixed_point_positions(sbox, 0) =~= Set::<int>::empty());
    } else {
        let j = (k - 1) as nat;
        lemma_opposite_fixed_points_are_counted(sbox, j);
        assert(!opposite_fixed_point_positions(sbox, j).contains(j as int));
        if sbox[j as int] == (#[verifier::truncate] (j as u8)) ^ 0xffu8 {
            assert(opposite_fixed_point_positions(sbox, k) =~= opposite_fixed_point_positions(sbox, j).insert(
                j as int,
            ));
        } else {
            assert(opposite_fixed_point_positions(sbox, k) =~= opposite_fixed_point_positions(sbox, j));
        }
    }
}

/// The active-byte count of a difference is the number of its nonzero
/// bytes: `|{x < k : d[x] != 0}|`.
pub proof fn lemma_active_bytes_are_counted(diff: Seq<u8>, k: nat)
    ensures
        nonzero_positions(diff, k).finite(),
        active_below(diff, k) == nonzero_positions(diff, k).len(),
    decreases k,
{
    if k == 0 {
        assert(nonzero_positions(diff, 0) =~= Set::<int>::empty());
    } else {
        let j = (k - 1) as nat;
        lemma_active_bytes_are_counted(diff, j);
        assert(!nonzero_positions(diff, j).contains(j as int));
        if diff[j as int] != 0 {
            assert(nonzero_positions(diff, k) =~= nonzero_positions(diff, j).insert(j as int));
        } else {
            assert(nonzero_positions(diff, k) =~= nonzero_positions(diff, j));
        }
    }
}

} // verus!

verus! {

// ============================================================
// Differential distribution table
// ============================================================

/// XOR-ing any two indices of the table stays inside it (the table length
/// is 0 or a power of two).
pub open spec fn xor_closed(n: nat) -> bool {
    forall|x: usize, d: usize| x < n && d < n ==> #[trigger] (x ^ d) < n
}

/// The output difference of the S-box at `x` for input difference `d`.
pub open spec fn ddt_out(sbox: Seq<u8>, x: usize, d: usize) -> u8 {
    sbox[x as int] ^ sbox[(x ^ d) as int]
}

/// Number of `x < k` with `S(x) XOR S(x XOR d) = v`.
pub open spec fn ddt_count(sbox: Seq<u8>, d: usize, v: u8, k: nat) -> nat
    decreases k,
{
    if k == 0 {
        0
    } else {
        ddt_count(sbox, d, v, (k - 1) as nat) + if ddt_out(sbox, (k - 1) as usize, d) == v {
            1nat
        } else {
            0nat
        }
    }
}

/// Largest DDT count of row `d` over output differences `v < m`.
pub open spec fn ddt_row_max(sbox: Seq<u8>, d: usize, m: nat) -> nat
    decreases m,
{
    if m == 0 {
        0
    } else {
        let prev = ddt_row_max(sbox, d, (m - 1) as nat);
        let c = ddt_count(sbox, d, (m - 1) as u8, sbox.len());
        if c > prev {
            c
        } else {
            prev
        }
    }
}

/// Largest DDT entry over nonzero input differences `d < e`.
pub open spec fn differential_uniformity_below(sbox: Seq<u8>, e: nat) -> nat
    decreases e,
{
    if e <= 1 {
        0
    } else {
        let prev = differential_uniformity_below(sbox, (e - 1) as nat);
        let r = ddt_row_max(sbox, (e - 1) as usize, 256);
        if r > prev {
            r
        } else {
            prev
        }
    }
}

/// Differential uniformity: the largest count, over nonzero input
/// differences and all output differences, of inputs realising that pair.
pub open spec fn differential_uniformity_spec(sbox: Seq<u8>) -> nat {
    differential_uniformity_below(sbox, sbox.len())
}

proof fn lemma_ddt_count_le(sbox: Seq<u8>, d: usize, v: u8, k: nat)
    ensures
        ddt_count(sbox, d, v, k) <= k,
    decreases k,
{
    if k > 0 {
        lemma_ddt_count_le(sbox, d, v, (k - 1) as nat);
    }
}

/// The inputs `x < k` whose pair `(x, x XOR d)` has output difference `v`.
pub open spec fn ddt_inputs(sbox: Seq<u8>, d: usize, v: u8, k: nat) -> Set<int> {
    Set::new(|x: int| 0 <= x < k && sbox[x] ^ sbox[(x as usize ^ d) as int] == v)
}

/// A DDT entry counts the inputs realising its pair of differences:
/// `|{x < k : S(x) XOR S(x XOR d) = v}|`.
pub proof fn lemma_ddt_count_counts_inputs(sbox: Seq<u8>, d: usize, v: u8, k: nat)
    requires
        k <= usize::MAX,
    ensures
        ddt_inputs(sbox, d, v, k).finite(),
        ddt_count(sbox, d, v, k) == ddt_inputs(sbox, d, v, k).len(),
    decreases k,
{
    if k == 0 {
        assert(ddt_inputs(sbox, d, v, 0) =~= Set::<int>::empty());
    } else {
        let j = (k - 1) as nat;
        lemma_ddt_count_counts_inputs(sbox, d, v, j);
        assert(!ddt_inputs(sbox, d, v, j).contains(j as int));
        assert((j as usize) as int == j);
        if ddt_out(sbox, j as usize, d) == v {
            assert(ddt_inputs(sbox, d, v, k) =~= ddt_inputs(sbox, d, v, j).insert(j as int));
        } else {
            assert(ddt_inputs(sbox, d, v, k) =~= ddt_inputs(sbox, d, v, j));
        }
    }
}

proof fn lemma_ddt_row_max_is_max(sbox: Seq<u8>, d: usize, m: nat)
    requires
        m <= 256,
    ensures
        forall|v: u8| v < m ==> #[trigger] ddt_count(sbox, d, v, sbox.len()) <= ddt_row_max(sbox, d, m),
        m >= 1 ==> exists|v: u8| v < m && #[trigger] ddt_count(sbox, d, v, sbox.len()) == ddt_row_max(sbox, d, m),
    decreases m,
{
    if m > 0 {
        lemma_ddt_row_max_is_max(sbox, d, (m - 1) as nat);
        let w = (m - 1) as u8;
        assert(w == m - 1);
        assert(ddt_count(sbox, d, w, sbox.len()) <= ddt_row_max(sbox, d, m));
        if ddt_count(sbox, d, w, sbox.len()) == ddt_row_max(sbox, d, m) {
            assert(w < m);
        } else {
            assert(ddt_row_max(sbox, d, m) == ddt_row_max(sbox, d, (m - 1) as nat));
            assert(m >= 2) by {
                if m == 1 {
                    assert(ddt_row_max(sbox, d, 0) == 0);
                }
            }
            let v0 = choose|v: u8| v < m - 1 && #[trigger] ddt_count(sbox, d, v, sbox.len()) == ddt_row_max(
                sbox,
                d,
                (m - 1) as nat,
            );
            assert(v0 < m && ddt_count(sbox, d, v0, sbox.len()) == ddt_row_max(sbox, d, m));
        }
    }
}

proof fn lemma_differential_uniformity_below_is_max(sbox: Seq<u8>, e: nat)
    requires
        e <= usize::MAX,
    ensures
        forall|d: usize, v: u8|
            1 <= d < e ==> #[trigger] ddt_count(sbox, d, v, sbox.len()) <= differential_uniformity_below(sbox, e),
        e >= 2 ==> exists|d: usize, v: u8|
            1 <= d < e && #[trigger] ddt_count(sbox, d, v, sbox.len()) == differential_uniformity_below(sbox, e),
    decreases e,
{
    if e >= 2 {
        let f = (e - 1) as usize;
        lemma_differential_uniformity_below_is_max(sbox, (e - 1) as nat);
        lemma_ddt_row_max_is_max(sbox, f, 256);
        if e >= 3 {
            let (d0, v0) = choose|d: usize, v: u8|
                1 <= d < e - 1 && #[trigger] ddt_count(sbox, d, v, sbox.len()) == differential_uniformity_below(
                    sbox,
                    (e - 1) as nat,
                );
            assert(1 <= d0 < e);
        }
        let v1 = choose|v: u8| v < 256 && #[trigger] ddt_count(sbox, f, v, sbox.len()) == ddt_row_max(sbox, f, 256);
        assert(ddt_count(sbox, f, v1, sbox.len()) == ddt_row_max(sbox, f, 256));
    }
}

/// Differential uniformity is the largest DDT entry over nonzero input
/// differences: no entry `ddt_count(d, v)` with `1 <= d < len` exceeds it,
/// and for tables of at least two entries some entry reaches it.
pub proof fn lemma_differential_uniformity_is_largest_entry(sbox: Seq<u8>)
    requires
        sbox.len() <= usize::MAX,
    ensures
        forall|d: usize, v: u8|
            1 <= d < sbox.len() ==> #[trigger] ddt_count(sbox, d, v, sbox.len()) <= differential_uniformity_spec(
                sbox,
            ),
        sbox.len() >= 2 ==> exists|d: usize, v: u8|
            1 <= d < sbox.len() && #[trigger] ddt_count(sbox, d, v, sbox.len()) == differential_uniformity_spec(
                sbox,
            ),
{
    lemma_differential_uniformity_below_is_max(sbox, sbox.len());
}

/// Max over nonzero input differences of the max count of output
/// differences (standard differential uniformity metric). Lower is
/// better; AES's S-box achieves 4.
pub fn sbox_differential_uniformity(sbox: &[u8]) -> (r: usize)
    requires
        xor_closed(sbox@.len()),
    ensures
        r == differential_uniformity_spec(sbox@),
        forall|d: usize, v: u8| 1 <= d < sbox@.len() ==> #[trigger] ddt_count(sbox@, d, v, sbox@.len()) <= r,
        sbox@.len() >= 2 ==> exists|d: usize, v: u8|
            1 <= d < sbox@.len() && #[trigger] ddt_count(sbox@, d, v, sbox@.len()) == r,
{
    let n = sbox.len();
    proof {
        lemma_differential_uniformity_is_largest_entry(sbox@);
    }
    let mut max_count: usize = 0;
    let mut delta_in: usize = 1;
    if n == 0 {
        return 0;
    }
    while delta_in < n
        invariant
            n == sbox@.len(),
            1 <= delta_in <= n,
            xor_closed(n as nat),
            max_count == differential_uniformity_below(sbox@, delta_in as nat),
        decreases n - delta_in,
    {
        let mut counts: Vec<usize> = Vec::new();
        let mut k: usize = 0;
        while k < 256
            invariant
                k <= 256,
                counts@.len() == k,
                forall|v: int| 0 <= v < k ==> #[trigger] counts@[v] == 0,
            decreases 256 - k,
        {
            counts.push(0);
            k += 1;
        }
        let mut x: usize = 0;
        while x < n
            invariant
                n == sbox@.len(),
                x <= n,
                delta_in < n,
                xor_closed(n as nat),
                counts@.len() == 256,
                forall|v: int| 0 <= v < 256 ==> #[trigger] counts@[v] == ddt_count(sbox@, delta_in, v as u8, x as nat),
            decreases n - x,
        {
            assert((x ^ delta_in) < n);
            let delta_out = sbox[x] ^ sbox[x ^ delta_in];
            proof {
                lemma_ddt_count_le(sbox@, delta_in, delta_out, x as nat);
            }
            let c = counts[delta_out as usize] + 1;
            counts.set(delta_out as usize, c);
            x += 1;
            proof {
                assert forall|v: int| 0 <= v < 256 implies #[trigger] counts@[v] == ddt_count(
                    sbox@,
                    delta_in,
                    v as u8,
                    x as nat,
                ) by {
                    assert(ddt_out(sbox@, (x - 1) as usize, delta_in) == delta_out);
                }
            }
        }
        let mut local_max: usize = 0;
        let mut v: usize = 0;
        while v < 256
            invariant
                v <= 256,
                counts@.len() == 256,
                forall|w: int| 0 <= w < 256 ==> #[trigger] counts@[w] == ddt_count(sbox@, delta_in, w as u8, n as nat),
                n == sbox@.len(),
                local_max == ddt_row_max(sbox@, delta_in, v as nat),
            decreases 256 - v,
        {
            if counts[v] > local_max {
                local_max = counts[v];
            }
            v += 1;
        }
        if local_max > max_count {
            max_count = local_max;
        }
        delta_in += 1;
    }
    max_count
}

/// The output difference `v` is realised by some `x < 256` for input
/// difference `d`.
pub open spec fn ddt_reaches(sbox: Seq<u8>, d: u8, v: int) -> bool {
    exists|x: int| 0 <= x < 256 && #[trigger] ddt_out(sbox, x as usize, d as usize) == v
}

/// The realised output differences `v < k`, ascending.
pub open spec fn ddt_row_below(sbox: Seq<u8>, d: u8, k: nat) -> Seq<u8>
    decreases k,
{
    if k == 0 {
        Seq::empty()
    } else if ddt_reaches(sbox, d, k - 1) {
        ddt_row_below(sbox, d, (k - 1) as nat).push((k - 1) as u8)
    } else {
        ddt_row_below(sbox, d, (k - 1) as nat)
    }
}

/// A DDT row lists exactly the output differences `v < k` that some input
/// `x < 256` realises (`S(x) XOR S(x XOR d) = v`), each once, ascending.
pub proof fn lemma_ddt_row_members(sbox: Seq<u8>, d: u8, k: nat)
    requires
        k <= 256,
    ensures
        forall|v: u8| #[trigger] ddt_row_below(sbox, d, k).contains(v) <==> (v < k && exists|x: int|
            0 <= x < 256 && #[trigger] sbox[x] ^ sbox[(x as usize ^ d as usize) as int] == v),
        forall|a: int, b: int|
            0 <= a < b < ddt_row_below(sbox, d, k).len() ==> #[trigger] ddt_row_below(sbox, d, k)[a]
                < #[trigger] ddt_row_below(sbox, d, k)[b],
    decreases k,
{
    if k > 0 {
        let j = (k - 1) as nat;
        lemma_ddt_row_members(sbox, d, j);
        let p = ddt_row_below(sbox, d, j);
        let q = ddt_row_below(sbox, d, k);
        assert forall|v: u8| #[trigger] q.contains(v) <==> (v < k && exists|x: int|
            0 <= x < 256 && #[trigger] sbox[x] ^ sbox[(x as usize ^ d as usize) as int] == v) by {
            if v == j {
                if ddt_reaches(sbox, d, j as int) {
                    assert(q[p.len() as int] == v);
                    let x = choose|x: int| 0 <= x < 256 && #[trigger] ddt_out(sbox, x as usize, d as usize) == j;
                    assert(sbox[x] ^ sbox[(x as usize ^ d as usize) as int] == v);
                } else {
                    assert(q == p);
                    if exists|x: int| 0 <= x < 256 && #[trigger] sbox[x] ^ sbox[(x as usize ^ d as usize) as int] == v {
                        let x = choose|x: int| 0 <= x < 256 && #[trigger] sbox[x] ^ sbox[(x as usize ^ d as usize) as int] == v;
                        assert(ddt_out(sbox, x as usize, d as usize) == j);
                    }
                }
            } else if ddt_reaches(sbox, d, j as int) {
                assert(q == p.push(j as u8));
                if q.contains(v) {
                    let t = choose|t: int| 0 <= t < q.len() && q[t] == v;
                    assert(t < p.len());
                    assert(p.contains(v));
                }
                if p.contains(v) {
                    let t = choose|t: int| 0 <= t < p.len() && p[t] == v;
                    assert(q[t] == v);
                }
            } else {
                assert(q == p);
            }
        }
        if ddt_reaches(sbox, d, j as int) {
            assert forall|a: int, b: int| 0 <= a < b < q.len() implies #[trigger] q[a] < #[trigger] q[b] by {
                if b == p.len() {
                    assert(p.contains(q[a]));
                }
            }
        }
    } else {
        assert forall|v: u8| #[trigger] ddt_row_below(sbox, d, 0).contains(v) implies false by {}
    }
}

/// The distinct output differences achievable for input difference
/// `delta_in`, ascending: one full row of the S-box's differential
/// distribution table (`delta_in = 0` gives `[0]`).
pub fn sbox_ddt_row(sbox: &[u8], delta_in: u8) -> (row: Vec<u8>)
    requires
        sbox@.len() >= 256,
    ensures
        row@ == ddt_row_below(sbox@, delta_in, 256),
        forall|v: u8| #[trigger] row@.contains(v) <==> exists|x: int|
            0 <= x < 256 && #[trigger] sbox@[x] ^ sbox@[(x as usize ^ delta_in as usize) as int] == v,
        forall|a: int, b: int| 0 <= a < b < row@.len() ==> #[trigger] row@[a] < #[trigger] row@[b],
{
    proof {
        lemma_ddt_row_members(sbox@, delta_in, 256);
    }
    let mut seen: Vec<bool> = Vec::new();
    let mut k: usize = 0;
    while k < 256
        invariant
            k <= 256,
            seen@.len() == k,
            forall|v: int| 0 <= v < k ==> !(#[trigger] seen@[v]),
        decreases 256 - k,
    {
        seen.push(false);
        k += 1;
    }
    let mut x: usize = 0;
    while x < 256
        invariant
            x <= 256,
            sbox@.len() >= 256,
            seen@.len() == 256,
            forall|v: int|
                0 <= v < 256 ==> (#[trigger] seen@[v] <==> exists|y: int|
                    0 <= y < x && #[trigger] ddt_out(sbox@, y as usize, delta_in as usize) == v),
        decreases 256 - x,
    {
        let d = delta_in as usize;
        assert(x ^ d < 256) by (bit_vector)
            requires
                x < 256,
                d < 256,
        ;
        let delta_out = sbox[x] ^ sbox[x ^ d];
        seen.set(delta_out as usize, true);
        x += 1;
        proof {
            assert forall|v: int| 0 <= v < 256 implies (#[trigger] seen@[v] <==> exists|y: int|
                0 <= y < x && #[trigger] ddt_out(sbox@, y as usize, delta_in as usize) == v) by {
                if v == delta_out {
                    assert(ddt_out(sbox@, (x - 1) as usize, delta_in as usize) == v);
                } else if seen@[v] {
                    let y = choose|y: int| 0 <= y < x - 1 && #[trigger] ddt_out(sbox@, y as usize, delta_in as usize) == v;
                    assert(0 <= y < x);
                }
            }
        }
    }
    let mut row: Vec<u8> = Vec::new();
    let mut v: usize = 0;
    while v < 256
        invariant
            v <= 256,
            seen@.len() == 256,
            forall|w: int| 0 <= w < 256 ==> (#[trigger] seen@[w] <==> ddt_reaches(sbox@, delta_in, w)),
            row@ == ddt_row_below(sbox@, delta_in, v as nat),
        decreases 256 - v,
    {
        if seen[v] {
            row.push(v as u8);
        }
        v += 1;
    }
    row
}

} // verus!

verus! {

// ============================================================
// Linear approximation table
// ============================================================

/// Number of `x < k` with `parity(a AND x) = parity(b AND S(x))`.
pub open spec fn lat_count(sbox: Seq<u8>, a: usize, b: usize, k: nat) -> nat
    decreases k,
{
    if k == 0 {
        0
    } else {
        lat_count(sbox, a, b, (k - 1) as nat) + if parity_of(a & ((k - 1) as usize)) == parity_of(
            b & (sbox[k - 1] as usize),
        ) {
            1nat
        } else {
            0nat
        }
    }
}

/// `|LAT[a][b]|`: the distance of the count from half the table.
pub open spec fn lat_deviation(sbox: Seq<u8>, a: usize, b: usize) -> int {
    let d = lat_count(sbox, a, b, sbox.len()) - sbox.len() / 2;
    if d < 0 {
        -d
    } else {
        d
    }
}

/// Largest deviation of column `b` over masks `a < m` (at least `floor`).
pub open spec fn lat_column_max(sbox: Seq<u8>, b: usize, m: nat, floor: int) -> int
    decreases m,
{
    if m == 0 {
        floor
    } else {
        let prev = lat_column_max(sbox, b, (m - 1) as nat, floor);
        let d = lat_deviation(sbox, (m - 1) as usize, b);
        if d > prev {
            d
        } else {
            prev
        }
    }
}

/// Largest deviation over output masks `1 <= b < e` and every input mask.
pub open spec fn linearity_below(sbox: Seq<u8>, e: nat) -> int
    decreases e,
{
    if e <= 1 {
        0
    } else {
        lat_column_max(sbox, (e - 1) as usize, sbox.len(), linearity_below(sbox, (e - 1) as nat))
    }
}

/// The inputs `x < k` on which the mask pair `(a, b)` agrees:
/// `parity(a AND x) = parity(b AND S(x))`.
pub open spec fn lat_inputs(sbox: Seq<u8>, a: usize, b: usize, k: nat) -> Set<int> {
    Set::new(|x: int| 0 <= x < k && parity_of(a & (x as usize)) == parity_of(b & (sbox[x] as usize)))
}

/// A LAT count is the number of inputs on which its masks agree.
pub proof fn lemma_lat_count_counts_inputs(sbox: Seq<u8>, a: usize, b: usize, k: nat)
    ensures
        lat_inputs(sbox, a, b, k).finite(),
        lat_count(sbox, a, b, k) == lat_inputs(sbox, a, b, k).len(),
    decreases k,
{
    if k == 0 {
        assert(lat_inputs(sbox, a, b, 0) =~= Set::<int>::empty());
    } else {
        let j = (k - 1) as nat;
        lemma_lat_count_counts_inputs(sbox, a, b, j);
        assert(!lat_inputs(sbox, a, b, j).contains(j as int));
        if parity_of(a & ((k - 1) as usize)) == parity_of(b & (sbox[k - 1] as usize)) {
            assert(lat_inputs(sbox, a, b, k) =~= lat_inputs(sbox, a, b, j).insert(j as int));
        } else {
            assert(lat_inputs(sbox, a, b, k) =~= lat_inputs(sbox, a, b, j));
        }
    }
}

proof fn lemma_lat_column_max_is_max(sbox: Seq<u8>, b: usize, m: nat, floor: int)
    requires
        m <= usize::MAX,
    ensures
        floor <= lat_column_max(sbox, b, m, floor),
        forall|a: usize| a < m ==> #[trigger] lat_deviation(sbox, a, b) <= lat_column_max(sbox, b, m, floor),
        lat_column_max(sbox, b, m, floor) == floor || exists|a: usize|
            a < m && #[trigger] lat_deviation(sbox, a, b) == lat_column_max(sbox, b, m, floor),
    decreases m,
{
    if m > 0 {
        lemma_lat_column_max_is_max(sbox, b, (m - 1) as nat, floor);
        let w = (m - 1) as usize;
        assert(w == m - 1);
        if lat_column_max(sbox, b, (m - 1) as nat, floor) != floor && lat_column_max(sbox, b, m, floor)
            == lat_column_max(sbox, b, (m - 1) as nat, floor) {
            let a0 = choose|a: usize| a < m - 1 && #[trigger] lat_deviation(sbox, a, b) == lat_column_max(
                sbox,
                b,
                (m - 1) as nat,
                floor,
            );
            assert(a0 < m);
        }
    }
}

proof fn lemma_linearity_below_is_max(sbox: Seq<u8>, e: nat)
    requires
        sbox.len() <= usize::MAX,
        e <= usize::MAX,
    ensures
        0 <= linearity_below(sbox, e),
        forall|a: usize, b: usize|
            a < sbox.len() && 1 <= b < e ==> #[trigger] lat_deviation(sbox, a, b) <= linearity_below(sbox, e),
        linearity_below(sbox, e) == 0 || exists|a: usize, b: usize|
            a < sbox.len() && 1 <= b < e && #[trigger] lat_deviation(sbox, a, b) == linearity_below(sbox, e),
    decreases e,
{
    if e >= 2 {
        let f = (e - 1) as usize;
        let prev = linearity_below(sbox, (e - 1) as nat);
        lemma_linearity_below_is_max(sbox, (e - 1) as nat);
        lemma_lat_column_max_is_max(sbox, f, sbox.len(), prev);
        if linearity_below(sbox, e) != 0 {
            if linearity_below(sbox, e) == prev {
                let (a0, b0) = choose|a: usize, b: usize|
                    a < sbox.len() && 1 <= b < e - 1 && #[trigger] lat_deviation(sbox, a, b) == prev;
                assert(1 <= b0 < e);
            } else {
                let a1 = choose|a: usize|
                    a < sbox.len() && #[trigger] lat_deviation(sbox, a, f) == lat_column_max(sbox, f, sbox.len(), prev);
                assert(lat_deviation(sbox, a1, f) == linearity_below(sbox, e));
            }
        }
    }
}

/// Linearity is the largest LAT deviation over nonzero output masks: no
/// `|LAT[a][b]|` with `a < len` and `1 <= b < len` exceeds it, and it is 0
/// or reached by one of them.
pub proof fn lemma_linearity_is_largest_deviation(sbox: Seq<u8>)
    requires
        sbox.len() <= usize::MAX,
    ensures
        forall|a: usize, b: usize|
            a < sbox.len() && 1 <= b < sbox.len() ==> #[trigger] lat_deviation(sbox, a, b) <= linearity_spec(sbox),
        linearity_spec(sbox) == 0 || exists|a: usize, b: usize|
            a < sbox.len() && 1 <= b < sbox.len() && #[trigger] lat_deviation(sbox, a, b) == linearity_spec(sbox),
{
    lemma_linearity_below_is_max(sbox, sbox.len());
}

/// Linearity: the largest `|LAT[a][b]|` with `b != 0`.
pub open spec fn linearity_spec(sbox: Seq<u8>) -> int {
    linearity_below(sbox, sbox.len())
}

proof fn lemma_lat_count_le(sbox: Seq<u8>, a: usize, b: usize, k: nat)
    ensures
        lat_count(sbox, a, b, k) <= k,
    decreases k,
{
    if k > 0 {
        lemma_lat_count_le(sbox, a, b, (k - 1) as nat);
    }
}

proof fn lemma_lat_column_bounds(sbox: Seq<u8>, b: usize, m: nat, floor: int)
    requires
        0 <= floor,
    ensures
        floor <= lat_column_max(sbox, b, m, floor) <= if floor > sbox.len() as int { floor } else { sbox.len() as int },
    decreases m,
{
    if m > 0 {
        lemma_lat_column_bounds(sbox, b, (m - 1) as nat, floor);
        lemma_lat_count_le(sbox, (m - 1) as usize, b, sbox.len());
    }
}

pub(crate) proof fn lemma_linearity_bounds(sbox: Seq<u8>, e: nat)
    ensures
        0 <= linearity_below(sbox, e) <= sbox.len(),
    decreases e,
{
    if e > 1 {
        lemma_linearity_bounds(sbox, (e - 1) as nat);
        lemma_lat_column_bounds(sbox, (e - 1) as usize, sbox.len(), linearity_below(sbox, (e - 1) as nat));
    }
}

/// Parity of `v` via `count_ones`.
fn parity(v: usize) -> (p: u32)
    ensures
        p == parity_of(v),
{
    count_ones(v) % 2
}

/// Linearity (the largest `|LAT[a][b]|` over `b != 0`) and nonlinearity
/// `len / 2 - linearity`, with `LAT[a][b] = #{x : parity(a AND x) =
/// parity(b AND S(x))} - len / 2`. AES's S-box has linearity 16 and
/// nonlinearity 112.
pub fn sbox_linearity_and_nonlinearity(sbox: &[u8]) -> (r: (usize, usize))
    requires
        sbox@.len() <= i32::MAX,
    ensures
        r.0 == linearity_spec(sbox@),
        r.1 == (sbox@.len() / 2 - linearity_spec(sbox@)) as usize,
        forall|a: usize, b: usize|
            a < sbox@.len() && 1 <= b < sbox@.len() ==> #[trigger] lat_deviation(sbox@, a, b) <= r.0,
        r.0 == 0 || exists|a: usize, b: usize|
            a < sbox@.len() && 1 <= b < sbox@.len() && #[trigger] lat_deviation(sbox@, a, b) == r.0,
{
    let n = sbox.len();
    proof {
        lemma_linearity_is_largest_deviation(sbox@);
    }
    let half: i32 = (n as i32) / 2;
    let mut linearity: i32 = 0;
    proof {
        lemma_linearity_bounds(sbox@, 0);
    }
    // Parities of every index below n (a AND x never exceeds a).
    let mut par: Vec<u32> = Vec::new();
    let mut v: usize = 0;
    while v < n
        invariant
            v <= n,
            par@.len() == v,
            forall|w: int| 0 <= w < v ==> #[trigger] par@[w] == parity_of(w as usize),
        decreases n - v,
    {
        par.push(parity(v));
        v += 1;
    }
    let mut b: usize = 1;
    while b < n
        invariant
            n == sbox@.len(),
            n <= i32::MAX,
            half == n / 2,
            1 <= b,
            b <= n || n == 0,
            par@.len() == n,
            forall|w: int| 0 <= w < n ==> #[trigger] par@[w] == parity_of(w as usize),
            linearity == linearity_below(sbox@, b as nat),
            0 <= linearity <= n,
        decreases n - b,
    {
        let mut out: Vec<u32> = Vec::new();
        let mut x: usize = 0;
        while x < n
            invariant
                n == sbox@.len(),
                x <= n,
                out@.len() == x,
                forall|y: int| 0 <= y < x ==> #[trigger] out@[y] == parity_of(b & (sbox@[y] as usize)),
            decreases n - x,
        {
            out.push(parity(b & (sbox[x] as usize)));
            x += 1;
        }
        let ghost floor = linearity as int;
        let mut a: usize = 0;
        while a < n
            invariant
                n == sbox@.len(),
                n <= i32::MAX,
                half == n / 2,
                1 <= b < n,
                a <= n,
                0 <= floor,
                par@.len() == n,
                forall|w: int| 0 <= w < n ==> #[trigger] par@[w] == parity_of(w as usize),
                out@.len() == n,
                forall|y: int| 0 <= y < n ==> #[trigger] out@[y] == parity_of(b & (sbox@[y] as usize)),
                linearity == lat_column_max(sbox@, b, a as nat, floor),
                0 <= linearity <= n,
                floor <= n,
            decreases n - a,
        {
            let mut count: i32 = 0;
            let mut x: usize = 0;
            while x < n
                invariant
                    n == sbox@.len(),
                    n <= i32::MAX,
                    x <= n,
                    a < n,
                    par@.len() == n,
                    forall|w: int| 0 <= w < n ==> #[trigger] par@[w] == parity_of(w as usize),
                    out@.len() == n,
                    forall|y: int| 0 <= y < n ==> #[trigger] out@[y] == parity_of(b & (sbox@[y] as usize)),
                    count == lat_count(sbox@, a, b, x as nat),
                decreases n - x,
            {
                proof {
                    lemma_lat_count_le(sbox@, a, b, x as nat);
                }
                let ax = a & x;
                assert(ax <= a) by (bit_vector)
                    requires
                        ax == a & x,
                ;
                let lhs = par[ax];
                let rhs = out[x];
                if lhs == rhs {
                    count += 1;
                }
                x += 1;
            }
            proof {
                lemma_lat_count_le(sbox@, a, b, n as nat);
            }
            let diff = count - half;
            let deviation = if diff < 0 {
                -diff
            } else {
                diff
            };
            if deviation > linearity {
                linearity = deviation;
            }
            a += 1;
        }
        proof {
            lemma_linearity_bounds(sbox@, (b + 1) as nat);
        }
        b += 1;
    }
    let nonlinearity = half - linearity;
    (linearity as usize, nonlinearity as usize)
}

} // verus!

verus! {

// ============================================================
// Algebraic degree
// ============================================================

/// The truth table of the component function `x -> parity(b AND S(x))`.
pub open spec fn component_table(sbox: Seq<u8>, b: usize) -> Seq<u8> {
    Seq::new(256, |x: int| parity_of(b & (sbox[x] as usize)) as u8)
}

/// One butterfly stage of the Möbius transform over bit `i`: every entry
/// whose index has bit `i` set absorbs (XOR) the entry without it.
pub open spec fn mobius_stage(t: Seq<u8>, i: nat) -> Seq<u8> {
    Seq::new(
        t.len(),
        |x: int|
            if (x as usize) & (1usize << (i as usize)) != 0 {
                t[x] ^ t[((x as usize) ^ (1usize << (i as usize))) as int]
            } else {
                t[x]
            },
    )
}

/// The first `k` butterfly stages (bits `0..k`) of the Möbius transform:
/// after all 8, entry `u` is the algebraic-normal-form coefficient of the
/// monomial `u`.
pub open spec fn mobius(t: Seq<u8>, k: nat) -> Seq<u8>
    decreases k,
{
    if k == 0 {
        t
    } else {
        mobius_stage(mobius(t, (k - 1) as nat), (k - 1) as nat)
    }
}

/// Largest weight `bit_count(u)` over `u < m` with coefficient 1 (0 if
/// none).
pub open spec fn anf_degree_below(anf: Seq<u8>, m: nat) -> nat
    decreases m,
{
    if m == 0 {
        0
    } else {
        let prev = anf_degree_below(anf, (m - 1) as nat);
        if anf[m - 1] == 1 && bit_count((m - 1) as nat) > prev {
            bit_count((m - 1) as nat)
        } else {
            prev
        }
    }
}

/// Largest algebraic degree of the component functions `b` with
/// `1 <= b < e`.
pub open spec fn algebraic_degree_below(sbox: Seq<u8>, e: nat) -> nat
    decreases e,
{
    if e <= 1 {
        0
    } else {
        let prev = algebraic_degree_below(sbox, (e - 1) as nat);
        let d = anf_degree_below(mobius(component_table(sbox, (e - 1) as usize), 8), 256);
        if d > prev {
            d
        } else {
            prev
        }
    }
}

proof fn lemma_mobius_len(t: Seq<u8>, k: nat)
    ensures
        mobius(t, k).len() == t.len(),
    decreases k,
{
    if k > 0 {
        lemma_mobius_len(t, (k - 1) as nat);
    }
}

proof fn lemma_bit_count_bound(v: nat, bound: nat, bits: nat)
    requires
        v < bound,
        bound == vstd::arithmetic::power2::pow2(bits),
    ensures
        bit_count(v) <= bits,
    decreases bits,
{
    if bits == 0 {
        vstd::arithmetic::power2::lemma2_to64();
        assert(v == 0);
    } else {
        vstd::arithmetic::power2::lemma_pow2_unfold(bits);
        lemma_bit_count_bound(v / 2, vstd::arithmetic::power2::pow2((bits - 1) as nat), (bits - 1) as nat);
    }
}

proof fn lemma_anf_degree_below_is_max(anf: Seq<u8>, m: nat)
    ensures
        forall|u: nat| u < m && anf[u as int] == 1 ==> #[trigger] bit_count(u) <= anf_degree_below(anf, m),
        anf_degree_below(anf, m) == 0 || exists|u: nat|
            u < m && anf[u as int] == 1 && #[trigger] bit_count(u) == anf_degree_below(anf, m),
    decreases m,
{
    if m > 0 {
        lemma_anf_degree_below_is_max(anf, (m - 1) as nat);
        let w = (m - 1) as nat;
        if anf_degree_below(anf, m) != 0 && anf_degree_below(anf, m) == anf_degree_below(anf, w) {
            let u0 = choose|u: nat| u < w && anf[u as int] == 1 && #[trigger] bit_count(u) == anf_degree_below(anf, w);
            assert(u0 < m);
        }
    }
}

proof fn lemma_algebraic_degree_below_is_max(sbox: Seq<u8>, e: nat)
    requires
        e <= usize::MAX,
    ensures
        forall|b: usize| 1 <= b < e ==> #[trigger] anf_degree_below(mobius(component_table(sbox, b), 8), 256)
            <= algebraic_degree_below(sbox, e),
        algebraic_degree_below(sbox, e) == 0 || exists|b: usize|
            1 <= b < e && #[trigger] anf_degree_below(mobius(component_table(sbox, b), 8), 256)
                == algebraic_degree_below(sbox, e),
    decreases e,
{
    if e >= 2 {
        let f = (e - 1) as usize;
        lemma_algebraic_degree_below_is_max(sbox, (e - 1) as nat);
        assert(f == e - 1);
        let prev = algebraic_degree_below(sbox, (e - 1) as nat);
        if algebraic_degree_below(sbox, e) != 0 && algebraic_degree_below(sbox, e) == prev {
            let b0 = choose|b: usize|
                1 <= b < e - 1 && #[trigger] anf_degree_below(mobius(component_table(sbox, b), 8), 256) == prev;
            assert(b0 < e);
        }
    }
}

/// The algebraic degree of an S-box is the largest degree of a monomial
/// present in the algebraic normal form of one of its nonzero components:
/// no monomial `u < 256` with coefficient 1 in the ANF of component
/// `1 <= b < 256` has more than that many variables, and it is 0 or reached
/// by one of them.
pub proof fn lemma_algebraic_degree_is_largest_monomial(sbox: Seq<u8>)
    ensures
        forall|b: usize, u: nat|
            #![trigger bit_count(u), component_table(sbox, b)]
            1 <= b < 256 && u < 256 && mobius(component_table(sbox, b), 8)[u as int] == 1 ==> bit_count(u)
                <= algebraic_degree_below(sbox, 256),
        algebraic_degree_below(sbox, 256) == 0 || exists|b: usize, u: nat|
            #![trigger bit_count(u), component_table(sbox, b)]
            1 <= b < 256 && u < 256 && mobius(component_table(sbox, b), 8)[u as int] == 1 && bit_count(u)
                == algebraic_degree_below(sbox, 256),
{
    lemma_algebraic_degree_below_is_max(sbox, 256);
    assert forall|b: usize, u: nat|
        #![trigger bit_count(u), component_table(sbox, b)]
        1 <= b < 256 && u < 256 && mobius(component_table(sbox, b), 8)[u as int] == 1 implies bit_count(u)
        <= algebraic_degree_below(sbox, 256) by {
        lemma_anf_degree_below_is_max(mobius(component_table(sbox, b), 8), 256);
        assert(anf_degree_below(mobius(component_table(sbox, b), 8), 256) <= algebraic_degree_below(sbox, 256));
    }
    if algebraic_degree_below(sbox, 256) != 0 {
        let b0 = choose|b: usize|
            1 <= b < 256 && #[trigger] anf_degree_below(mobius(component_table(sbox, b), 8), 256)
                == algebraic_degree_below(sbox, 256);
        let anf = mobius(component_table(sbox, b0), 8);
        lemma_anf_degree_below_is_max(anf, 256);
        let u0 = choose|u: nat| u < 256 && anf[u as int] == 1 && #[trigger] bit_count(u) == anf_degree_below(anf, 256);
        assert(bit_count(u0) == algebraic_degree_below(sbox, 256));
        assert(component_table(sbox, b0) == component_table(sbox, b0));
    }
}

pub fn sbox_algebraic_degree(sbox: &[u8]) -> (r: usize)
    requires
        sbox@.len() >= 256,
    ensures
        r == algebraic_degree_below(sbox@, 256),
        forall|b: usize, u: nat|
            #![trigger bit_count(u), component_table(sbox@, b)]
            1 <= b < 256 && u < 256 && mobius(component_table(sbox@, b), 8)[u as int] == 1 ==> bit_count(u) <= r,
        r == 0 || exists|b: usize, u: nat|
            #![trigger bit_count(u), component_table(sbox@, b)]
            1 <= b < 256 && u < 256 && mobius(component_table(sbox@, b), 8)[u as int] == 1 && bit_count(u) == r,
{
    proof {
        lemma_algebraic_degree_is_largest_monomial(sbox@);
    }
    let mut max_degree: u32 = 0;
    let mut b: usize = 1;
    while b < 256
        invariant
            1 <= b <= 256,
            sbox@.len() >= 256,
            max_degree == algebraic_degree_below(sbox@, b as nat),
            max_degree <= 8,
        decreases 256 - b,
    {
        let mut table: Vec<u8> = Vec::new();
        let mut x: usize = 0;
        while x < 256
            invariant
                x <= 256,
                b < 256,
                sbox@.len() >= 256,
                table@ == component_table(sbox@, b).subrange(0, x as int),
            decreases 256 - x,
        {
            let p = parity(b & (sbox[x] as usize));
            table.push(p as u8);
            x += 1;
            proof {
                assert(table@ =~= component_table(sbox@, b).subrange(0, x as int));
            }
        }
        proof {
            assert(table@ =~= component_table(sbox@, b));
        }
        let mut i: usize = 0;
        while i < 8
            invariant
                i <= 8,
                table@ == mobius(component_table(sbox@, b), i as nat),
                table@.len() == 256,
            decreases 8 - i,
        {
            let bit: usize = 1usize << i;
            let ghost before = table@;
            let mut y: usize = 0;
            while y < 256
                invariant
                    y <= 256,
                    i < 8,
                    bit == 1usize << i,
                    before.len() == 256,
                    table@.len() == 256,
                    forall|z: int| 0 <= z < y ==> #[trigger] table@[z] == mobius_stage(before, i as nat)[z],
                    forall|z: int| y <= z < 256 ==> #[trigger] table@[z] == before[z],
                decreases 256 - y,
            {
                if y & bit != 0 {
                    assert((y ^ bit) < y && (y ^ bit) & bit == 0) by (bit_vector)
                        requires
                            y & bit != 0,
                            y < 256,
                            bit == 1usize << i,
                            i < 8,
                    ;
                    let ybit = y ^ bit;
                    assert(table@[ybit as int] == before[ybit as int]);
                    let v = table[y] ^ table[ybit];
                    table.set(y, v);
                }
                y += 1;
            }
            proof {
                assert(table@ =~= mobius_stage(before, i as nat));
            }
            i += 1;
        }
        let mut deg: u32 = 0;
        let mut u: usize = 0;
        while u < 256
            invariant
                u <= 256,
                table@.len() == 256,
                deg == anf_degree_below(table@, u as nat),
                deg <= 8,
            decreases 256 - u,
        {
            if table[u] == 1 {
                let w = count_ones(u);
                proof {
                    vstd::arithmetic::power2::lemma2_to64();
                    lemma_bit_count_bound(u as nat, 256, 8);
                }
                if w > deg {
                    deg = w;
                }
            }
            u += 1;
        }
        if deg > max_degree {
            max_degree = deg;
        }
        b += 1;
    }
    max_degree as usize
}

// ============================================================
// Autocorrelation
// ============================================================

/// `(-1)^{parity(b AND S(x))}`.
pub open spec fn component_sign(sbox: Seq<u8>, b: usize, x: int) -> int {
    if parity_of(b & (sbox[x] as usize)) == 0 {
        1
    } else {
        -1
    }
}

/// `sum over x < k of sign_b(x) * sign_b(x XOR a)`.
pub open spec fn autocorrelation_sum(sbox: Seq<u8>, b: usize, a: usize, k: nat) -> int
    decreases k,
{
    if k == 0 {
        0
    } else {
        autocorrelation_sum(sbox, b, a, (k - 1) as nat) + component_sign(sbox, b, k - 1) * component_sign(
            sbox,
            b,
            (((k - 1) as usize) ^ a) as int,
        )
    }
}

/// `|r(a, b)|`: the magnitude of the autocorrelation of component `b` at
/// shift `a`.
pub open spec fn autocorrelation_magnitude(sbox: Seq<u8>, b: usize, a: usize) -> int {
    let s = autocorrelation_sum(sbox, b, a, sbox.len());
    if s < 0 {
        -s
    } else {
        s
    }
}

/// Largest `|r(a, b)|` over shifts `1 <= a < m` (at least `floor`).
pub open spec fn autocorrelation_row_max(sbox: Seq<u8>, b: usize, m: nat, floor: int) -> int
    decreases m,
{
    if m <= 1 {
        floor
    } else {
        let prev = autocorrelation_row_max(sbox, b, (m - 1) as nat, floor);
        let s = autocorrelation_sum(sbox, b, (m - 1) as usize, sbox.len());
        let abs = if s < 0 {
            -s
        } else {
            s
        };
        if abs > prev {
            abs
        } else {
            prev
        }
    }
}

/// Largest `|r(a, b)|` over output masks `1 <= b < e`.
pub open spec fn autocorrelation_below(sbox: Seq<u8>, e: nat) -> int
    decreases e,
{
    if e <= 1 {
        0
    } else {
        autocorrelation_row_max(sbox, (e - 1) as usize, sbox.len(), autocorrelation_below(sbox, (e - 1) as nat))
    }
}

proof fn lemma_autocorrelation_row_max_is_max(sbox: Seq<u8>, b: usize, m: nat, floor: int)
    requires
        m <= usize::MAX,
    ensures
        floor <= autocorrelation_row_max(sbox, b, m, floor),
        forall|a: usize|
            1 <= a < m ==> #[trigger] autocorrelation_magnitude(sbox, b, a) <= autocorrelation_row_max(sbox, b, m, floor),
        autocorrelation_row_max(sbox, b, m, floor) == floor || exists|a: usize|
            1 <= a < m && #[trigger] autocorrelation_magnitude(sbox, b, a) == autocorrelation_row_max(sbox, b, m, floor),
    decreases m,
{
    if m > 1 {
        lemma_autocorrelation_row_max_is_max(sbox, b, (m - 1) as nat, floor);
        let w = (m - 1) as usize;
        assert(w == m - 1);
        assert(autocorrelation_magnitude(sbox, b, w) <= autocorrelation_row_max(sbox, b, m, floor));
        if autocorrelation_row_max(sbox, b, (m - 1) as nat, floor) != floor && autocorrelation_row_max(sbox, b, m, floor)
            == autocorrelation_row_max(sbox, b, (m - 1) as nat, floor) {
            let a0 = choose|a: usize|
                1 <= a < m - 1 && #[trigger] autocorrelation_magnitude(sbox, b, a) == autocorrelation_row_max(
                    sbox,
                    b,
                    (m - 1) as nat,
                    floor,
                );
            assert(a0 < m);
        }
    }
}

proof fn lemma_autocorrelation_below_is_max(sbox: Seq<u8>, e: nat)
    requires
        sbox.len() <= usize::MAX,
        e <= usize::MAX,
    ensures
        0 <= autocorrelation_below(sbox, e),
        forall|a: usize, b: usize|
            1 <= a < sbox.len() && 1 <= b < e ==> #[trigger] autocorrelation_magnitude(sbox, b, a)
                <= autocorrelation_below(sbox, e),
        autocorrelation_below(sbox, e) == 0 || exists|a: usize, b: usize|
            1 <= a < sbox.len() && 1 <= b < e && #[trigger] autocorrelation_magnitude(sbox, b, a)
                == autocorrelation_below(sbox, e),
    decreases e,
{
    if e >= 2 {
        let f = (e - 1) as usize;
        let prev = autocorrelation_below(sbox, (e - 1) as nat);
        lemma_autocorrelation_below_is_max(sbox, (e - 1) as nat);
        lemma_autocorrelation_row_max_is_max(sbox, f, sbox.len(), prev);
        if autocorrelation_below(sbox, e) != 0 {
            if autocorrelation_below(sbox, e) == prev {
                let (a0, b0) = choose|a: usize, b: usize|
                    1 <= a < sbox.len() && 1 <= b < e - 1 && #[trigger] autocorrelation_magnitude(sbox, b, a) == prev;
                assert(1 <= b0 < e);
            } else {
                let a1 = choose|a: usize|
                    1 <= a < sbox.len() && #[trigger] autocorrelation_magnitude(sbox, f, a) == autocorrelation_row_max(
                        sbox,
                        f,
                        sbox.len(),
                        prev,
                    );
                assert(autocorrelation_magnitude(sbox, f, a1) == autocorrelation_below(sbox, e));
            }
        }
    }
}

/// The maximum autocorrelation is the largest `|r(a, b)|` over nonzero
/// shifts and nonzero component masks: none exceeds it, and it is 0 or
/// reached by one of them.
pub proof fn lemma_autocorrelation_is_largest_magnitude(sbox: Seq<u8>)
    requires
        sbox.len() <= usize::MAX,
    ensures
        forall|a: usize, b: usize|
            1 <= a < sbox.len() && 1 <= b < sbox.len() ==> #[trigger] autocorrelation_magnitude(sbox, b, a)
                <= autocorrelation_below(sbox, sbox.len()),
        autocorrelation_below(sbox, sbox.len()) == 0 || exists|a: usize, b: usize|
            1 <= a < sbox.len() && 1 <= b < sbox.len() && #[trigger] autocorrelation_magnitude(sbox, b, a)
                == autocorrelation_below(sbox, sbox.len()),
{
    lemma_autocorrelation_below_is_max(sbox, sbox.len());
}

proof fn lemma_autocorrelation_sum_bound(sbox: Seq<u8>, b: usize, a: usize, k: nat)
    ensures
        -k <= autocorrelation_sum(sbox, b, a, k) <= k,
    decreases k,
{
    if k > 0 {
        lemma_autocorrelation_sum_bound(sbox, b, a, (k - 1) as nat);
        let x = component_sign(sbox, b, k - 1);
        let y = component_sign(sbox, b, (((k - 1) as usize) ^ a) as int);
        assert(x == 1 || x == -1);
        assert(y == 1 || y == -1);
        assert(-1 <= x * y <= 1) by (nonlinear_arith)
            requires
                x == 1 || x == -1,
                y == 1 || y == -1,
        ;
    }
}

proof fn lemma_autocorrelation_row_bounds(sbox: Seq<u8>, b: usize, m: nat, floor: int)
    requires
        0 <= floor,
    ensures
        floor <= autocorrelation_row_max(sbox, b, m, floor) <= if floor > sbox.len() as int { floor } else { sbox.len() as int },
    decreases m,
{
    if m > 1 {
        lemma_autocorrelation_row_bounds(sbox, b, (m - 1) as nat, floor);
        lemma_autocorrelation_sum_bound(sbox, b, (m - 1) as usize, sbox.len());
    }
}

pub(crate) proof fn lemma_autocorrelation_bounds(sbox: Seq<u8>, e: nat)
    ensures
        0 <= autocorrelation_below(sbox, e) <= sbox.len(),
    decreases e,
{
    if e > 1 {
        lemma_autocorrelation_bounds(sbox, (e - 1) as nat);
        lemma_autocorrelation_row_bounds(sbox, (e - 1) as usize, sbox.len(), autocorrelation_below(sbox, (e - 1) as nat));
    }
}

/// Maximum absolute autocorrelation ("absolute indicator") over every
/// nonzero input shift `a` and nonzero output combination `b`:
/// `r(a, b) = sum_x (-1)^{f_b(x) XOR f_b(x XOR a)}`. AES's S-box has 32.
pub fn sbox_max_autocorrelation(sbox: &[u8]) -> (r: usize)
    requires
        xor_closed(sbox@.len()),
        sbox@.len() <= i32::MAX,
    ensures
        r == autocorrelation_below(sbox@, sbox@.len()),
        forall|a: usize, b: usize|
            1 <= a < sbox@.len() && 1 <= b < sbox@.len() ==> #[trigger] autocorrelation_magnitude(sbox@, b, a) <= r,
        r == 0 || exists|a: usize, b: usize|
            1 <= a < sbox@.len() && 1 <= b < sbox@.len() && #[trigger] autocorrelation_magnitude(sbox@, b, a) == r,
{
    let n = sbox.len();
    proof {
        lemma_autocorrelation_is_largest_magnitude(sbox@);
    }
    let mut max_abs: i32 = 0;
    proof {
        lemma_autocorrelation_bounds(sbox@, 0);
    }
    let mut b: usize = 1;
    while b < n
        invariant
            n == sbox@.len(),
            n <= i32::MAX,
            xor_closed(n as nat),
            1 <= b,
            b <= n || n == 0,
            max_abs == autocorrelation_below(sbox@, b as nat),
            0 <= max_abs <= n,
        decreases n - b,
    {
        let mut f: Vec<i32> = Vec::new();
        let mut x: usize = 0;
        while x < n
            invariant
                n == sbox@.len(),
                x <= n,
                f@.len() == x,
                forall|y: int| 0 <= y < x ==> #[trigger] f@[y] == component_sign(sbox@, b, y),
            decreases n - x,
        {
            let bit = parity(b & (sbox[x] as usize));
            if bit == 0 {
                f.push(1);
            } else {
                f.push(-1);
            }
            x += 1;
        }
        let ghost floor = max_abs as int;
        let mut a: usize = 1;
        while a < n
            invariant
                n == sbox@.len(),
                n <= i32::MAX,
                xor_closed(n as nat),
                1 <= b < n,
                1 <= a <= n,
                f@.len() == n,
                forall|y: int| 0 <= y < n ==> #[trigger] f@[y] == component_sign(sbox@, b, y),
                0 <= floor <= n,
                max_abs == autocorrelation_row_max(sbox@, b, a as nat, floor),
                0 <= max_abs <= n,
            decreases n - a,
        {
            let mut sum: i32 = 0;
            let mut x: usize = 0;
            while x < n
                invariant
                    n == sbox@.len(),
                    n <= i32::MAX,
                    xor_closed(n as nat),
                    a < n,
                    x <= n,
                    f@.len() == n,
                    forall|y: int| 0 <= y < n ==> #[trigger] f@[y] == component_sign(sbox@, b, y),
                    sum == autocorrelation_sum(sbox@, b, a, x as nat),
                decreases n - x,
            {
                proof {
                    lemma_autocorrelation_sum_bound(sbox@, b, a, x as nat);
                }
                assert((x ^ a) < n);
                let xa = x ^ a;
                let term = f[x] * f[xa];
                assert(f@[x as int] == component_sign(sbox@, b, x as int));
                assert(f@[xa as int] == component_sign(sbox@, b, xa as int));
                sum = sum + term;
                x += 1;
            }
            proof {
                lemma_autocorrelation_sum_bound(sbox@, b, a, n as nat);
            }
            let abs = if sum < 0 {
                -sum
            } else {
                sum
            };
            if abs > max_abs {
                max_abs = abs;
            }
            a += 1;
        }
        proof {
            lemma_autocorrelation_bounds(sbox@, (b + 1) as nat);
        }
        b += 1;
    }
    max_abs as usize
}

} // verus!

verus! {

// ============================================================
// Cycle structure
// ============================================================

/// Follows `x, S(x), S(S(x)), ...`, marking each index, until it reaches
/// a marked index (for at most `fuel` steps): the new marks and the
/// number of indices marked.
pub open spec fn walk(sbox: Seq<u8>, marks: Seq<bool>, x: int, fuel: nat) -> (Seq<bool>, nat)
    decreases fuel,
{
    if fuel == 0 || marks[x] {
        (marks, 0)
    } else {
        let (m, len) = walk(sbox, marks.update(x, true), sbox[x] as int, (fuel - 1) as nat);
        (m, len + 1)
    }
}

/// The lengths of the walks started, in order, from every index `>= k`
/// not yet marked when its turn comes.
pub open spec fn walks_from(sbox: Seq<u8>, marks: Seq<bool>, k: nat) -> Seq<nat>
    decreases sbox.len() - k,
{
    if k >= sbox.len() {
        Seq::empty()
    } else if marks[k as int] {
        walks_from(sbox, marks, k + 1)
    } else {
        let (m, len) = walk(sbox, marks, k as int, sbox.len());
        seq![len] + walks_from(sbox, m, k + 1)
    }
}

/// The walk lengths from every start: for a bijection, its cycle lengths.
pub open spec fn walk_lengths(sbox: Seq<u8>) -> Seq<nat> {
    walks_from(sbox, Seq::new(sbox.len(), |i: int| false), 0)
}

/// Number of entries of `ws` equal to `l`.
pub open spec fn count_of(ws: Seq<nat>, l: nat) -> nat
    decreases ws.len(),
{
    if ws.len() == 0 {
        0
    } else {
        count_of(ws.drop_last(), l) + if ws.last() == l {
            1nat
        } else {
            0nat
        }
    }
}

/// The entries of `ws` that lie in `1..=l`, longest first.
pub open spec fn lengths_desc(ws: Seq<nat>, l: nat) -> Seq<usize>
    decreases l,
{
    if l == 0 {
        Seq::empty()
    } else {
        Seq::new(count_of(ws, l), |i: int| l as usize) + lengths_desc(ws, (l - 1) as nat)
    }
}

/// Number of set marks among the first `k`.
pub open spec fn marked_below(marks: Seq<bool>, k: nat) -> nat
    decreases k,
{
    if k == 0 {
        0
    } else {
        marked_below(marks, (k - 1) as nat) + if marks[k - 1] {
            1nat
        } else {
            0nat
        }
    }
}

proof fn lemma_marked_below_bound(marks: Seq<bool>, k: nat)
    ensures
        marked_below(marks, k) <= k,
    decreases k,
{
    if k > 0 {
        lemma_marked_below_bound(marks, (k - 1) as nat);
    }
}

proof fn lemma_marked_update(marks: Seq<bool>, x: int, k: nat)
    requires
        0 <= x < marks.len(),
        k <= marks.len(),
        !marks[x],
    ensures
        marked_below(marks.update(x, true), k) == marked_below(marks, k) + if x < k {
            1nat
        } else {
            0nat
        },
    decreases k,
{
    if k > 0 {
        lemma_marked_update(marks, x, (k - 1) as nat);
    }
}

proof fn lemma_all_marked(marks: Seq<bool>, k: nat, x: int)
    requires
        k <= marks.len(),
        marked_below(marks, k) == k,
        0 <= x < k,
    ensures
        marks[x],
    decreases k,
{
    lemma_marked_below_bound(marks, (k - 1) as nat);
    if x < k - 1 {
        lemma_all_marked(marks, (k - 1) as nat, x);
    }
}

proof fn lemma_walk_len(sbox: Seq<u8>, marks: Seq<bool>, x: int, fuel: nat)
    requires
        marks.len() == sbox.len(),
        0 <= x < sbox.len(),
        forall|i: int| 0 <= i < sbox.len() ==> #[trigger] sbox[i] < sbox.len(),
    ensures
        walk(sbox, marks, x, fuel).0.len() == marks.len(),
    decreases fuel,
{
    if fuel > 0 && !marks[x] {
        lemma_walk_len(sbox, marks.update(x, true), sbox[x] as int, (fuel - 1) as nat);
    }
}

proof fn lemma_count_of_push(ws: Seq<nat>, w: nat, l: nat)
    ensures
        count_of(seq![w] + ws, l) == count_of(ws, l) + if w == l {
            1nat
        } else {
            0nat
        },
    decreases ws.len(),
{
    if ws.len() > 0 {
        assert((seq![w] + ws).drop_last() =~= seq![w] + ws.drop_last());
        assert((seq![w] + ws).last() == ws.last());
        lemma_count_of_push(ws.drop_last(), w, l);
    } else {
        assert((seq![w] + ws).drop_last() =~= Seq::<nat>::empty());
        assert((seq![w] + ws).last() == w);
        assert(count_of(Seq::<nat>::empty(), l) == 0);
        assert(ws =~= Seq::<nat>::empty());
    }
}

/// Sum of a sequence of lengths.
pub open spec fn lengths_total(s: Seq<usize>) -> nat
    decreases s.len(),
{
    if s.len() == 0 {
        0
    } else {
        s[0] as nat + lengths_total(s.drop_first())
    }
}

/// Sum of a sequence of walk lengths.
spec fn walks_total(s: Seq<nat>) -> nat
    decreases s.len(),
{
    if s.len() == 0 {
        0
    } else {
        s[0] + walks_total(s.drop_first())
    }
}

proof fn lemma_lengths_total_concat(a: Seq<usize>, b: Seq<usize>)
    ensures
        lengths_total(a + b) == lengths_total(a) + lengths_total(b),
    decreases a.len(),
{
    if a.len() == 0 {
        assert(a + b =~= b);
    } else {
        assert((a + b).drop_first() =~= a.drop_first() + b);
        lemma_lengths_total_concat(a.drop_first(), b);
    }
}

proof fn lemma_walks_total_concat(a: Seq<nat>, b: Seq<nat>)
    ensures
        walks_total(a + b) == walks_total(a) + walks_total(b),
    decreases a.len(),
{
    if a.len() == 0 {
        assert(a + b =~= b);
    } else {
        assert((a + b).drop_first() =~= a.drop_first() + b);
        lemma_walks_total_concat(a.drop_first(), b);
    }
}

proof fn lemma_lengths_total_const(s: Seq<usize>, l: usize)
    requires
        forall|i: int| 0 <= i < s.len() ==> #[trigger] s[i] == l,
    ensures
        lengths_total(s) == s.len() * l,
    decreases s.len(),
{
    if s.len() > 0 {
        let t = s.drop_first();
        assert forall|i: int| 0 <= i < t.len() implies #[trigger] t[i] == l by {
            assert(t[i] == s[i + 1]);
        }
        lemma_lengths_total_const(t, l);
        assert(s.len() * l == (s.len() - 1) * l + l) by (nonlinear_arith)
            requires
                s.len() > 0,
        ;
    }
}

/// A walk marks one new index per step, keeps every earlier mark, and
/// marks its start when it takes a step.
proof fn lemma_walk_marks(sbox: Seq<u8>, marks: Seq<bool>, x: int, fuel: nat)
    requires
        marks.len() == sbox.len(),
        0 <= x < sbox.len(),
        forall|i: int| 0 <= i < sbox.len() ==> #[trigger] sbox[i] < sbox.len(),
    ensures
        ({
            let (m, l) = walk(sbox, marks, x, fuel);
            &&& m.len() == marks.len()
            &&& marked_below(m, sbox.len()) == marked_below(marks, sbox.len()) + l
            &&& forall|i: int| 0 <= i < marks.len() && marks[i] ==> #[trigger] m[i]
            &&& fuel > 0 && !marks[x] ==> m[x] && l >= 1
        }),
    decreases fuel,
{
    if fuel > 0 && !marks[x] {
        let mk = marks.update(x, true);
        lemma_marked_update(marks, x, sbox.len());
        lemma_walk_marks(sbox, mk, sbox[x] as int, (fuel - 1) as nat);
        let (m, l) = walk(sbox, mk, sbox[x] as int, (fuel - 1) as nat);
        assert forall|i: int| 0 <= i < marks.len() && marks[i] implies #[trigger] m[i] by {
            assert(mk[i]);
        }
        assert(mk[x]);
    }
}

proof fn lemma_marked_all(marks: Seq<bool>, k: nat)
    requires
        k <= marks.len(),
        forall|i: int| 0 <= i < k ==> #[trigger] marks[i],
    ensures
        marked_below(marks, k) == k,
    decreases k,
{
    if k > 0 {
        lemma_marked_all(marks, (k - 1) as nat);
    }
}

/// The walks started from the unmarked indices `>= k` mark every index
/// not yet marked: their lengths, each in `1..=len`, add up to the number
/// of unmarked indices.
proof fn lemma_walks_from_total(sbox: Seq<u8>, marks: Seq<bool>, k: nat)
    requires
        marks.len() == sbox.len(),
        k <= sbox.len(),
        forall|i: int| 0 <= i < k ==> #[trigger] marks[i],
        forall|i: int| 0 <= i < sbox.len() ==> #[trigger] sbox[i] < sbox.len(),
    ensures
        walks_total(walks_from(sbox, marks, k)) + marked_below(marks, sbox.len()) == sbox.len(),
        forall|i: int|
            0 <= i < walks_from(sbox, marks, k).len() ==> 1 <= #[trigger] walks_from(sbox, marks, k)[i]
                <= sbox.len(),
    decreases sbox.len() - k,
{
    lemma_marked_below_bound(marks, sbox.len());
    if k >= sbox.len() {
        lemma_marked_all(marks, sbox.len());
    } else if marks[k as int] {
        assert forall|i: int| 0 <= i < k + 1 implies #[trigger] marks[i] by {}
        lemma_walks_from_total(sbox, marks, k + 1);
    } else {
        lemma_walk_marks(sbox, marks, k as int, sbox.len());
        let (m, l) = walk(sbox, marks, k as int, sbox.len());
        assert forall|i: int| 0 <= i < k + 1 implies #[trigger] m[i] by {
            if i < k {
                assert(marks[i]);
            }
        }
        lemma_walks_from_total(sbox, m, k + 1);
        let rest = walks_from(sbox, m, k + 1);
        assert(walks_from(sbox, marks, k) == seq![l] + rest);
        lemma_walks_total_concat(seq![l], rest);
        assert(seq![l].drop_first() =~= Seq::<nat>::empty());
        assert(walks_total(Seq::<nat>::empty()) == 0);
        assert(walks_total(seq![l]) == l);
        lemma_marked_below_bound(m, sbox.len());
        assert forall|i: int| 0 <= i < walks_from(sbox, marks, k).len() implies 1 <= #[trigger] walks_from(
            sbox,
            marks,
            k,
        )[i] <= sbox.len() by {
            if i > 0 {
                assert(walks_from(sbox, marks, k)[i] == rest[i - 1]);
            }
        }
    }
}

/// Lengths grouped by value, `1..=l`, times their multiplicity.
spec fn weighted_counts(ws: Seq<nat>, l: nat) -> nat
    decreases l,
{
    if l == 0 {
        0
    } else {
        weighted_counts(ws, (l - 1) as nat) + l * count_of(ws, l)
    }
}

proof fn lemma_weighted_counts_step(ws: Seq<nat>, l: nat)
    requires
        ws.len() > 0,
    ensures
        weighted_counts(ws, l) == weighted_counts(ws.drop_last(), l) + if 1 <= ws.last() <= l {
            ws.last()
        } else {
            0
        },
    decreases l,
{
    if l > 0 {
        lemma_weighted_counts_step(ws, (l - 1) as nat);
        let c = count_of(ws.drop_last(), l);
        if ws.last() == l {
            assert(l * (c + 1) == l * c + l) by (nonlinear_arith);
        }
    }
}

proof fn lemma_weighted_counts_total(ws: Seq<nat>, l: nat)
    requires
        forall|i: int| 0 <= i < ws.len() ==> 1 <= #[trigger] ws[i] <= l,
    ensures
        weighted_counts(ws, l) == walks_total(ws),
    decreases ws.len(),
{
    if ws.len() == 0 {
        lemma_weighted_counts_empty(ws, l);
    } else {
        let p = ws.drop_last();
        assert forall|i: int| 0 <= i < p.len() implies 1 <= #[trigger] p[i] <= l by {
            assert(p[i] == ws[i]);
        }
        lemma_weighted_counts_total(p, l);
        lemma_weighted_counts_step(ws, l);
        assert(ws == p + seq![ws.last()]);
        lemma_walks_total_concat(p, seq![ws.last()]);
        assert(seq![ws.last()].drop_first() =~= Seq::<nat>::empty());
        assert(walks_total(Seq::<nat>::empty()) == 0);
        assert(walks_total(seq![ws.last()]) == ws.last());
        assert(ws[ws.len() - 1] == ws.last());
        assert(1 <= ws.last() <= l);
    }
}

proof fn lemma_weighted_counts_empty(ws: Seq<nat>, l: nat)
    requires
        ws.len() == 0,
    ensures
        weighted_counts(ws, l) == 0,
    decreases l,
{
    if l > 0 {
        lemma_weighted_counts_empty(ws, (l - 1) as nat);
        assert(count_of(ws, l) == 0);
        assert(l * 0 == 0);
    }
}

proof fn lemma_lengths_desc_shape(ws: Seq<nat>, l: nat)
    requires
        l <= usize::MAX,
    ensures
        lengths_total(lengths_desc(ws, l)) == weighted_counts(ws, l),
        forall|i: int| 0 <= i < lengths_desc(ws, l).len() ==> 1 <= #[trigger] lengths_desc(ws, l)[i] <= l,
        forall|a: int, b: int|
            0 <= a < b < lengths_desc(ws, l).len() ==> #[trigger] lengths_desc(ws, l)[a] >= #[trigger] lengths_desc(
                ws,
                l,
            )[b],
    decreases l,
{
    if l > 0 {
        let lu = l as usize;
        let head = Seq::new(count_of(ws, l), |i: int| lu);
        let rest = lengths_desc(ws, (l - 1) as nat);
        lemma_lengths_desc_shape(ws, (l - 1) as nat);
        assert(lengths_desc(ws, l) == head + rest);
        lemma_lengths_total_concat(head, rest);
        lemma_lengths_total_const(head, lu);
        assert(head.len() * lu == l * count_of(ws, l)) by (nonlinear_arith)
            requires
                head.len() == count_of(ws, l),
                lu == l,
        ;
        let q = lengths_desc(ws, l);
        assert forall|i: int| 0 <= i < q.len() implies 1 <= #[trigger] q[i] <= l by {
            if i >= head.len() {
                assert(q[i] == rest[i - head.len()]);
            }
        }
        assert forall|a: int, b: int| 0 <= a < b < q.len() implies #[trigger] q[a] >= #[trigger] q[b] by {
            if a >= head.len() {
                assert(q[a] == rest[a - head.len()]);
                assert(q[b] == rest[b - head.len()]);
            } else if b >= head.len() {
                assert(q[b] == rest[b - head.len()]);
            }
        }
    }
}

/// The cycle structure of a table mapping `0..len` into itself splits its
/// indices: the reported lengths, each at least 1, add up to `len`, and
/// are listed longest first.
pub proof fn lemma_cycle_lengths_partition(sbox: Seq<u8>)
    requires
        forall|i: int| 0 <= i < sbox.len() ==> #[trigger] sbox[i] < sbox.len(),
        sbox.len() <= usize::MAX,
    ensures
        lengths_total(lengths_desc(walk_lengths(sbox), sbox.len())) == sbox.len(),
        forall|i: int|
            0 <= i < lengths_desc(walk_lengths(sbox), sbox.len()).len() ==> 1 <= #[trigger] lengths_desc(
                walk_lengths(sbox),
                sbox.len(),
            )[i],
        forall|a: int, b: int|
            0 <= a < b < lengths_desc(walk_lengths(sbox), sbox.len()).len() ==> #[trigger] lengths_desc(
                walk_lengths(sbox),
                sbox.len(),
            )[a] >= #[trigger] lengths_desc(walk_lengths(sbox), sbox.len())[b],
{
    let none = Seq::new(sbox.len(), |i: int| false);
    lemma_walks_from_total(sbox, none, 0);
    assert(marked_below(none, sbox.len()) == 0) by {
        lemma_nothing_marked(none, sbox.len());
    }
    lemma_weighted_counts_total(walk_lengths(sbox), sbox.len());
    lemma_lengths_desc_shape(walk_lengths(sbox), sbox.len());
}

proof fn lemma_nothing_marked(marks: Seq<bool>, k: nat)
    requires
        k <= marks.len(),
        forall|i: int| 0 <= i < k ==> !#[trigger] marks[i],
    ensures
        marked_below(marks, k) == 0,
    decreases k,
{
    if k > 0 {
        lemma_nothing_marked(marks, (k - 1) as nat);
    }
}

/// Cycle lengths of the S-box viewed as a permutation, longest first
/// (for any table whose entries index it: the lengths of the walks that
/// mark every index once).
pub fn sbox_cycle_structure(sbox: &[u8]) -> (cycles: Vec<usize>)
    requires
        forall|i: int| 0 <= i < sbox@.len() ==> #[trigger] sbox@[i] < sbox@.len(),
        sbox@.len() < usize::MAX,
    ensures
        cycles@ == lengths_desc(walk_lengths(sbox@), sbox@.len()),
        lengths_total(cycles@) == sbox@.len(),
        forall|i: int| 0 <= i < cycles@.len() ==> 1 <= #[trigger] cycles@[i],
        forall|a: int, b: int| 0 <= a < b < cycles@.len() ==> #[trigger] cycles@[a] >= #[trigger] cycles@[b],
{
    proof {
        lemma_cycle_lengths_partition(sbox@);
    }
    let n = sbox.len();
    let ghost total = walk_lengths(sbox@);
    let mut visited: Vec<bool> = Vec::new();
    let mut k: usize = 0;
    while k < n
        invariant
            k <= n,
            visited@ == Seq::new(k as nat, |i: int| false),
        decreases n - k,
    {
        visited.push(false);
        k += 1;
        proof {
            assert(visited@ =~= Seq::new(k as nat, |i: int| false));
        }
    }
    proof {
        lemma_marked_below_bound(visited@, n as nat);
    }
    let mut counts: Vec<usize> = Vec::new();
    let mut k: usize = 0;
    while k <= n
        invariant
            k <= n + 1,
            n < usize::MAX,
            counts@.len() == k,
            forall|l: int| 0 <= l < k ==> #[trigger] counts@[l] == 0,
        decreases n + 1 - k,
    {
        counts.push(0);
        k += 1;
    }
    let mut start: usize = 0;
    while start < n
        invariant
            n == sbox@.len(),
            n < usize::MAX,
            start <= n,
            visited@.len() == n,
            counts@.len() == n + 1,
            forall|i: int| 0 <= i < n ==> #[trigger] sbox@[i] < n,
            total == walk_lengths(sbox@),
            forall|l: nat|
                l <= n ==> #[trigger] counts@[l as int] + count_of(walks_from(sbox@, visited@, start as nat), l)
                    == count_of(total, l),
            forall|l: nat| #![trigger count_of(total, l)] l > n ==> count_of(walks_from(sbox@, visited@, start as nat), l) == count_of(total, l),
            marked_below(visited@, n as nat) <= n,
            forall|l: int| 0 <= l <= n ==> #[trigger] counts@[l] <= start,
        decreases n - start,
    {
        if !visited[start] {
            let ghost v0 = visited@;
            let mut len: usize = 0;
            let mut x: usize = start;
            let ghost m0 = marked_below(v0, n as nat);
            while !visited[x]
                invariant
                    n == sbox@.len(),
                    x < n,
                    visited@.len() == n,
                    forall|i: int| 0 <= i < n ==> #[trigger] sbox@[i] < n,
                    len <= n,
                    marked_below(visited@, n as nat) == m0 + len,
                    m0 + len <= n,
                    walk(sbox@, v0, start as int, n as nat).0 == walk(sbox@, visited@, x as int, (n - len) as nat).0,
                    walk(sbox@, v0, start as int, n as nat).1 == walk(sbox@, visited@, x as int, (n - len) as nat).1 + len,
                decreases n - len,
            {
                proof {
                    lemma_marked_update(visited@, x as int, n as nat);
                    lemma_marked_below_bound(visited@.update(x as int, true), n as nat);
                    if len == n {
                        lemma_marked_below_bound(visited@, n as nat);
                    }
                }
                visited.set(x, true);
                x = sbox[x] as usize;
                len += 1;
            }
            proof {
                if len < n {
                } else {
                }
                lemma_walk_len(sbox@, v0, start as int, n as nat);
                lemma_count_of_push(walks_from(sbox@, visited@, (start + 1) as nat), len as nat, 0);
                assert forall|l: nat| #![trigger count_of(total, l)] true implies count_of(walks_from(sbox@, v0, start as nat), l)
                    == count_of(walks_from(sbox@, visited@, (start + 1) as nat), l) + if len as nat == l {
                    1nat
                } else {
                    0nat
                } by {
                    lemma_count_of_push(walks_from(sbox@, visited@, (start + 1) as nat), len as nat, l);
                }
            }
            let c = counts[len];
            counts.set(len, c + 1);
        }
        start += 1;
    }
    let mut cycles: Vec<usize> = Vec::new();
    let mut l: usize = n;
    while l > 0
        invariant
            l <= n,
            counts@.len() == n + 1,
            forall|j: nat| j <= n ==> #[trigger] counts@[j as int] == count_of(total, j),
            cycles@ + lengths_desc(total, l as nat) == lengths_desc(total, n as nat),
        decreases l,
    {
        let c = counts[l];
        let mut i: usize = 0;
        while i < c
            invariant
                i <= c,
                c == count_of(total, l as nat),
                cycles@ + Seq::new((c - i) as nat, |t: int| l as usize) + lengths_desc(total, (l - 1) as nat) == lengths_desc(total, n as nat),
            decreases c - i,
        {
            let ghost before = cycles@;
            cycles.push(l);
            i += 1;
            proof {
                assert(before + Seq::new((c - i + 1) as nat, |t: int| l as usize) =~= cycles@ + Seq::new((c - i) as nat, |t: int| l as usize));
            }
        }
        l -= 1;
        proof {
            assert(cycles@ + Seq::new(0, |t: int| (l + 1) as usize) =~= cycles@);
        }
    }
    proof {
        assert(cycles@ + lengths_desc(total, 0) =~= cycles@);
    }
    cycles
}

} // verus!

verus! {

/// Every quality metric of one S-box.
pub struct SboxQualityReport {
    pub bijective: bool,
    pub fixed_points: usize,
    pub opposite_fixed_points: usize,
    pub differential_uniformity: usize,
    pub linearity: usize,
    pub nonlinearity: usize,
    pub algebraic_degree: usize,
    pub max_autocorrelation: usize,
    pub cycle_lengths: Vec<usize>,
}

/// The S-box tables every metric accepts: at least 256 entries, indices
/// closed under XOR, and entries that index the table.
pub open spec fn sbox_table_ok(sbox: Seq<u8>) -> bool {
    &&& 256 <= sbox.len() <= i32::MAX
    &&& xor_closed(sbox.len())
    &&& forall|i: int| 0 <= i < sbox.len() ==> #[trigger] sbox[i] < sbox.len()
}

/// A 256-entry table is accepted by every metric.
pub proof fn lemma_byte_table_ok(sbox: Seq<u8>)
    requires
        sbox.len() == 256,
    ensures
        sbox_table_ok(sbox),
{
    assert forall|x: usize, d: usize| x < 256 && d < 256 implies #[trigger] (x ^ d) < 256 by {
        lemma_mask_bits(0, 0, 0, x, d);
    }
}

/// Full quality report for one S-box, bundling every metric.
pub fn sbox_quality_report(sbox: &[u8]) -> (r: SboxQualityReport)
    requires
        sbox_table_ok(sbox@),
    ensures
        r.bijective == is_arrangement(sbox@),
        r.fixed_points == fixed_points_below(sbox@, sbox@.len()),
        r.fixed_points == fixed_point_positions(sbox@, sbox@.len()).len(),
        r.opposite_fixed_points == opposite_fixed_points_below(sbox@, sbox@.len()),
        r.opposite_fixed_points == opposite_fixed_point_positions(sbox@, sbox@.len()).len(),
        r.differential_uniformity == differential_uniformity_spec(sbox@),
        r.linearity == linearity_spec(sbox@),
        r.nonlinearity == (sbox@.len() / 2 - linearity_spec(sbox@)) as usize,
        r.algebraic_degree == algebraic_degree_below(sbox@, 256),
        r.max_autocorrelation == autocorrelation_below(sbox@, sbox@.len()),
        r.cycle_lengths@ == lengths_desc(walk_lengths(sbox@), sbox@.len()),
{
    let (linearity, nonlinearity) = sbox_linearity_and_nonlinearity(sbox);
    SboxQualityReport {
        bijective: sbox_is_bijective(sbox),
        fixed_points: sbox_fixed_points(sbox),
        opposite_fixed_points: sbox_opposite_fixed_points(sbox),
        differential_uniformity: sbox_differential_uniformity(sbox),
        linearity,
        nonlinearity,
        algebraic_degree: sbox_algebraic_degree(sbox),
        max_autocorrelation: sbox_max_autocorrelation(sbox),
        cycle_lengths: sbox_cycle_structure(sbox),
    }
}

} // verus!

verus! {

// ============================================================
// Dependency / diffusion analysis
// ============================================================

/// The connection tables `dependency_sets` reads: `heads` heads of at
/// least 8 nodes in each of `depth` layers, whose sources are inputs
/// `0..8`.
pub open spec fn dependency_shape_ok(t: TransformerModel) -> bool {
    &&& t.depth <= t.connections.len()
    &&& forall|l: int|
        #![trigger t.connections[l]]
        0 <= l < t.depth ==> {
            &&& t.heads <= t.connections[l].len()
            &&& forall|h: int|
                #![trigger t.connections[l][h]]
                0 <= h < t.heads ==> {
                    &&& t.connections[l][h].len() >= 8
                    &&& forall|o: int, k: int|
                        0 <= o < 8 && 0 <= k < t.connections[l][h][o].0.len() ==> #[trigger] t.connections[l][h][o].0[k] < 8
                }
        }
}

/// For each output position, the mask of inputs that could structurally
/// influence it after every layer.
pub open spec fn dependency_masks_spec(t: TransformerModel) -> Seq<u8> {
    dep_masks(t.connections, t.heads, t.depth)
}

/// The input positions in mask `m`.
pub open spec fn mask_set(m: u8) -> Set<usize> {
    Set::new(|i: usize| i < 8 && bit_of(m, i as int))
}

fn dependency_masks(transformer: &GeneratedTransformer) -> (dep: Vec<u8>)
    requires
        dependency_shape_ok(transformer@),
    ensures
        dep@ == dependency_masks_spec(transformer@),
{
    let ghost t = transformer@;
    let mut dep: Vec<u8> = vec![1u8, 2u8, 4u8, 8u8, 16u8, 32u8, 64u8, 128u8];
    proof {
        assert(dep@ =~= unit_masks()) by {
            assert((1u8 << 0u8) == 1u8 && (1u8 << 1u8) == 2u8 && (1u8 << 2u8) == 4u8 && (1u8 << 3u8)
                == 8u8 && (1u8 << 4u8) == 16u8 && (1u8 << 5u8) == 32u8 && (1u8 << 6u8) == 64u8 && (1u8
                << 7u8) == 128u8) by (bit_vector);
        }
    }
    let mut layer: usize = 0;
    while layer < transformer.depth
        invariant
            t == transformer@,
            dependency_shape_ok(t),
            layer <= t.depth,
            dep@ == dep_masks(t.connections, t.heads, layer as nat),
            dep@.len() == 8,
        decreases t.depth - layer,
    {
        let layer_connections = &transformer.connections[layer];
        assert(layer_connections.deep_view() == t.connections[layer as int]);
        let mut new_dep: Vec<u8> = Vec::new();
        let mut o: usize = 0;
        while o < 8
            invariant
                o <= 8,
                layer < t.depth,
                t == transformer@,
                dependency_shape_ok(t),
                layer_connections.deep_view() == t.connections[layer as int],
                dep@.len() == 8,
                new_dep@ == dep_layer(dep@, t.connections[layer as int], t.heads).subrange(0, o as int),
            decreases 8 - o,
        {
            let m = node_mask(&dep, layer_connections, transformer.heads, o);
            new_dep.push(m);
            o += 1;
            proof {
                assert(new_dep@ =~= dep_layer(dep@, t.connections[layer as int], t.heads).subrange(0, o as int));
            }
        }
        proof {
            assert(new_dep@ =~= dep_layer(dep@, t.connections[layer as int], t.heads));
        }
        dep = new_dep;
        layer += 1;
    }
    dep
}

/// Every source of every node of a head's first 8 nodes is an input
/// position, and the head has at least 8 nodes.
pub open spec fn head_dependency_ok(head: Seq<NodeView>) -> bool {
    &&& head.len() >= 8
    &&& forall|o: int, k: int| 0 <= o < 8 && 0 <= k < head[o].0.len() ==> #[trigger] head[o].0[k] < 8
}

fn head_dependency_check(head: &Vec<(Vec<usize>, Vec<u8>)>) -> (r: bool)
    ensures
        r == head_dependency_ok(head.deep_view()),
{
    if head.len() < 8 {
        return false;
    }
    let mut o: usize = 0;
    while o < 8
        invariant
            o <= 8,
            head@.len() >= 8,
            forall|j: int, k: int|
                0 <= j < o && 0 <= k < head.deep_view()[j].0.len() ==> #[trigger] head.deep_view()[j].0[k] < 8,
        decreases 8 - o,
    {
        let node = &head[o];
        assert(head.deep_view()[o as int] == (node.0@, node.1@)) by {
            assert(head.deep_view()[o as int] == node.deep_view());
        }
        let mut k: usize = 0;
        while k < node.0.len()
            invariant
                o < 8,
                head@.len() >= 8,
                head.deep_view()[o as int] == (node.0@, node.1@),
                k <= node.0@.len(),
                forall|j: int, i: int|
                    0 <= j < o && 0 <= i < head.deep_view()[j].0.len() ==> #[trigger] head.deep_view()[j].0[i] < 8,
                forall|i: int| 0 <= i < k ==> #[trigger] node.0@[i] < 8,
            decreases node.0@.len() - k,
        {
            if node.0[k] >= 8 {
                assert(head.deep_view()[o as int].0[k as int] >= 8);
                return false;
            }
            k += 1;
        }
        o += 1;
    }
    true
}

impl GeneratedTransformer {
    /// Whether `dependency_sets` and `diffusion_report` can read the
    /// transformer: `heads` heads of at least 8 nodes in each of `depth`
    /// layers, whose sources are input positions `0..8`.
    pub fn has_dependency_shape(&self) -> (r: bool)
        ensures
            r == dependency_shape_ok(self@),
    {
        let ghost t = self@;
        if self.depth > self.connections.len() {
            return false;
        }
        let mut l: usize = 0;
        while l < self.depth
            invariant
                t == self@,
                l <= t.depth,
                t.depth <= t.connections.len(),
                forall|j: int|
                    0 <= j < l ==> t.heads <= (#[trigger] t.connections[j]).len() && forall|h: int|
                        0 <= h < t.heads ==> #[trigger] head_dependency_ok(t.connections[j][h]),
            decreases t.depth - l,
        {
            let layer = &self.connections[l];
            assert(layer.deep_view() == t.connections[l as int]);
            if self.heads > layer.len() {
                return false;
            }
            let mut h: usize = 0;
            while h < self.heads
                invariant
                    t == self@,
                    l < t.depth,
                    t.depth <= t.connections.len(),
                    layer.deep_view() == t.connections[l as int],
                    t.heads <= layer@.len(),
                    h <= t.heads,
                    forall|j: int| 0 <= j < h ==> #[trigger] head_dependency_ok(t.connections[l as int][j]),
                decreases t.heads - h,
            {
                assert(layer.deep_view()[h as int] == layer[h as int].deep_view());
                if !head_dependency_check(&layer[h]) {
                    return false;
                }
                h += 1;
            }
            l += 1;
        }
        proof {
            assert forall|j: int| #![trigger t.connections[j]] 0 <= j < t.depth implies {
                &&& t.heads <= t.connections[j].len()
                &&& forall|h: int|
                    #![trigger t.connections[j][h]]
                    0 <= h < t.heads ==> {
                        &&& t.connections[j][h].len() >= 8
                        &&& forall|o: int, k: int|
                            0 <= o < 8 && 0 <= k < t.connections[j][h][o].0.len() ==> #[trigger] t.connections[j][h][o].0[k] < 8
                    }
            } by {
                assert forall|h: int| #![trigger t.connections[j][h]] 0 <= h < t.heads implies {
                    &&& t.connections[j][h].len() >= 8
                    &&& forall|o: int, k: int|
                        0 <= o < 8 && 0 <= k < t.connections[j][h][o].0.len() ==> #[trigger] t.connections[j][h][o].0[k] < 8
                } by {
                    assert(head_dependency_ok(t.connections[j][h]));
                }
            }
        }
        true
    }
}

/// For each of the 8 output positions after the full transformer, the set
/// of input byte indices that could structurally influence it (ignoring
/// algebraic cancellation).
pub fn dependency_sets(transformer: &GeneratedTransformer) -> (sets: Vec<HashSet<usize>>)
    requires
        dependency_shape_ok(transformer@),
    ensures
        sets@.len() == 8,
        forall|o: int| 0 <= o < 8 ==> (#[trigger] sets@[o])@ == mask_set(dependency_masks_spec(transformer@)[o]),
{
    broadcast use vstd::std_specs::hash::group_hash_axioms;

    let dep = dependency_masks(transformer);
    let mut sets: Vec<HashSet<usize>> = Vec::new();
    let mut o: usize = 0;
    while o < 8
        invariant
            o <= 8,
            dep@ == dependency_masks_spec(transformer@),
            dep@.len() == 8,
            sets@.len() == o,
            forall|j: int| 0 <= j < o ==> (#[trigger] sets@[j])@ == mask_set(dep@[j]),
        decreases 8 - o,
    {
        let mut set: HashSet<usize> = HashSet::new();
        let mut i: usize = 0;
        while i < 8
            invariant
                i <= 8,
                o < 8,
                dep@.len() == 8,
                set@ == Set::new(|j: usize| j < i && bit_of(dep@[o as int], j as int)),
            decreases 8 - i,
        {
            let m = dep[o];
            if (m >> (i as u8)) & 1 == 1 {
                set.insert(i);
            }
            i += 1;
            proof {
                assert(set@ =~= Set::new(|j: usize| j < i && bit_of(dep@[o as int], j as int)));
            }
        }
        proof {
            assert(set@ =~= mask_set(dep@[o as int]));
        }
        sets.push(set);
        o += 1;
    }
    sets
}

/// Structural diffusion report of one transformer.
pub struct DiffusionReport {
    pub depth: usize,
    pub heads: usize,
    pub full_diffusion: bool,
    /// Number of (output, input) pairs with a structural dependency; the
    /// coverage fraction is `covered_pairs / 64` (1 = every output depends
    /// on every input).
    pub covered_pairs: usize,
    pub per_output_dependency_count: Vec<usize>,
    pub dead_inputs: Vec<usize>,
}

/// Sum of the first `k` entries.
pub open spec fn sum_below(v: Seq<usize>, k: nat) -> nat
    decreases k,
{
    if k == 0 {
        0
    } else {
        sum_below(v, (k - 1) as nat) + v[k - 1] as nat
    }
}

/// Bit `i` of the OR of the first `n` masks is set exactly when it is set
/// in one of them.
proof fn lemma_masks_or_bit(m: Seq<u8>, n: nat, i: int)
    requires
        0 <= i < 8,
    ensures
        bit_of(masks_or(m, n), i) <==> exists|o: int| 0 <= o < n && #[trigger] bit_of(m[o], i),
    decreases n,
{
    if n > 0 {
        lemma_masks_or_bit(m, (n - 1) as nat, i);
        lemma_mask_bits(masks_or(m, (n - 1) as nat), m[n - 1], i as u8, 0, 0);
        if bit_of(masks_or(m, n), i) && !bit_of(m[n - 1], i) {
            let o = choose|o: int| 0 <= o < n - 1 && #[trigger] bit_of(m[o], i);
            assert(0 <= o < n);
        }
    } else {
        assert(bit_of(0u8, i) == false) by {
            lemma_mask_bits(0, 0, i as u8, 0, 0);
        }
    }
}

/// The unreached inputs below `n` are exactly those whose bit is clear,
/// listed once each in ascending order.
proof fn lemma_unreached_below_members(reach: u8, n: nat)
    requires
        n <= 8,
    ensures
        forall|i: usize| #[trigger] unreached_below(reach, n).contains(i) <==> (i < n && !bit_of(reach, i as int)),
        forall|a: int, b: int|
            0 <= a < b < unreached_below(reach, n).len() ==> #[trigger] unreached_below(reach, n)[a]
                < #[trigger] unreached_below(reach, n)[b],
    decreases n,
{
    if n > 0 {
        let j = (n - 1) as nat;
        lemma_unreached_below_members(reach, j);
        let p = unreached_below(reach, j);
        let q = unreached_below(reach, n);
        if !bit_of(reach, j as int) {
            assert(q == p.push(j as usize));
            assert forall|i: usize| #[trigger] q.contains(i) <==> (i < n && !bit_of(reach, i as int)) by {
                if q.contains(i) && i != j {
                    let k = choose|k: int| 0 <= k < q.len() && q[k] == i;
                    assert(k < p.len());
                    assert(p.contains(i));
                }
                if i < n && !bit_of(reach, i as int) && i != j {
                    assert(p.contains(i));
                    let k = choose|k: int| 0 <= k < p.len() && p[k] == i;
                    assert(q[k] == i);
                }
                if i == j {
                    assert(q[p.len() as int] == i);
                }
            }
            assert forall|a: int, b: int| 0 <= a < b < q.len() implies #[trigger] q[a] < #[trigger] q[b] by {
                if b == p.len() {
                    assert(p.contains(q[a]));
                }
            }
        }
    } else {
        assert forall|i: usize| #[trigger] unreached_below(reach, 0).contains(i) implies false by {}
    }
}

/// The dead inputs of a dependency report are exactly the inputs on which
/// no output depends, each listed once in ascending order.
pub proof fn lemma_dead_inputs_are_unreached(dep: Seq<u8>)
    ensures
        forall|i: usize|
            #[trigger] unreached_below(masks_or(dep, 8), 8).contains(i) <==> (i < 8 && forall|o: int|
                0 <= o < 8 ==> !#[trigger] mask_set(dep[o]).contains(i)),
        forall|a: int, b: int|
            0 <= a < b < unreached_below(masks_or(dep, 8), 8).len() ==> #[trigger] unreached_below(
                masks_or(dep, 8),
                8,
            )[a] < #[trigger] unreached_below(masks_or(dep, 8), 8)[b],
{
    lemma_unreached_below_members(masks_or(dep, 8), 8);
    assert forall|i: usize|
        #[trigger] unreached_below(masks_or(dep, 8), 8).contains(i) <==> (i < 8 && forall|o: int|
            0 <= o < 8 ==> !#[trigger] mask_set(dep[o]).contains(i)) by {
        if i < 8 {
            lemma_masks_or_bit(dep, 8, i as int);
            if exists|o: int| 0 <= o < 8 && #[trigger] bit_of(dep[o], i as int) {
                let o = choose|o: int| 0 <= o < 8 && #[trigger] bit_of(dep[o], i as int);
                assert(mask_set(dep[o]).contains(i));
            }
            if exists|o: int| 0 <= o < 8 && #[trigger] mask_set(dep[o]).contains(i) {
                let o = choose|o: int| 0 <= o < 8 && #[trigger] mask_set(dep[o]).contains(i);
                assert(bit_of(dep[o], i as int));
            }
        }
    }
}

/// A byte has all 8 bits set exactly when it has 8 set bits, and each of
/// its bits is 0 or 1.
proof fn lemma_popcount8_full(m: u8)
    by (bit_vector)
    ensures
        popcount8(m) == 8 <==> m == 0xffu8,
        (m >> 0u8) & 1u8 <= 1u8,
        m & 1u8 == (m >> 0u8) & 1u8,
        (m >> 1u8) & 1u8 <= 1u8,
        (m >> 2u8) & 1u8 <= 1u8,
        (m >> 3u8) & 1u8 <= 1u8,
        (m >> 4u8) & 1u8 <= 1u8,
        (m >> 5u8) & 1u8 <= 1u8,
        (m >> 6u8) & 1u8 <= 1u8,
        (m >> 7u8) & 1u8 <= 1u8,
{
}

/// Number of set bits among the low `k` bits of `m`.
spec fn set_bits_below(m: u8, k: nat) -> nat
    decreases k,
{
    if k == 0 {
        0
    } else {
        set_bits_below(m, (k - 1) as nat) + if bit_of(m, k - 1) {
            1nat
        } else {
            0nat
        }
    }
}

/// The positions of the set bits among the low `k` bits of `m`.
spec fn set_bit_positions(m: u8, k: nat) -> Set<usize> {
    Set::new(|i: usize| i < k && bit_of(m, i as int))
}

proof fn lemma_set_bits_below_counted(m: u8, k: nat)
    requires
        k <= 8,
    ensures
        set_bit_positions(m, k).finite(),
        set_bits_below(m, k) == set_bit_positions(m, k).len(),
    decreases k,
{
    if k == 0 {
        assert(set_bit_positions(m, 0) =~= Set::<usize>::empty());
    } else {
        let j = (k - 1) as nat;
        lemma_set_bits_below_counted(m, j);
        assert(!set_bit_positions(m, j).contains(j as usize));
        if bit_of(m, j as int) {
            assert(set_bit_positions(m, k) =~= set_bit_positions(m, j).insert(j as usize));
        } else {
            assert(set_bit_positions(m, k) =~= set_bit_positions(m, j));
        }
    }
}

/// The population count of a dependency mask is the number of inputs in
/// it: `popcount8(m) == |mask_set(m)|`.
pub proof fn lemma_popcount_counts_inputs(m: u8)
    ensures
        mask_set(m).finite(),
        popcount8(m) == mask_set(m).len(),
{
    lemma_popcount8_full(m);
    lemma_set_bits_below_counted(m, 8);
    assert(set_bit_positions(m, 8) =~= mask_set(m));
    reveal_with_fuel(set_bits_below, 9);
    let b0: nat = if bit_of(m, 0) { 1 } else { 0 };
    let b1: nat = if bit_of(m, 1) { 1 } else { 0 };
    let b2: nat = if bit_of(m, 2) { 1 } else { 0 };
    let b3: nat = if bit_of(m, 3) { 1 } else { 0 };
    let b4: nat = if bit_of(m, 4) { 1 } else { 0 };
    let b5: nat = if bit_of(m, 5) { 1 } else { 0 };
    let b6: nat = if bit_of(m, 6) { 1 } else { 0 };
    let b7: nat = if bit_of(m, 7) { 1 } else { 0 };
    assert(set_bits_below(m, 8) == b0 + b1 + b2 + b3 + b4 + b5 + b6 + b7);
    assert((m >> 0u8) & 1u8 == b0);
    assert((m >> 1u8) & 1u8 == b1);
    assert((m >> 2u8) & 1u8 == b2);
    assert((m >> 3u8) & 1u8 == b3);
    assert((m >> 4u8) & 1u8 == b4);
    assert((m >> 5u8) & 1u8 == b5);
    assert((m >> 6u8) & 1u8 == b6);
    assert((m >> 7u8) & 1u8 == b7);
    assert(popcount8(m) == b0 + b1 + b2 + b3 + b4 + b5 + b6 + b7);
    assert(mask_set(m).len() == set_bits_below(m, 8));
}

/// The covered pairs of a diffusion report add up the dependency counts of
/// the 8 outputs: `sum_below(v, 8) == v[0] + v[1] + ... + v[7]`.
pub proof fn lemma_sum_of_eight(v: Seq<usize>)
    ensures
        sum_below(v, 8) == v[0] + v[1] + v[2] + v[3] + v[4] + v[5] + v[6] + v[7],
{
    reveal_with_fuel(sum_below, 9);
}

/// The structural report of a candidate topology agrees with the
/// diffusion report of a transformer on that topology: it reports full
/// diffusion exactly when every output depends on all 8 inputs, and it
/// reports the same dead inputs.
pub proof fn lemma_topology_report_agrees_with_diffusion(t: TransformerModel, attempt: u32)
    ensures
        ({
            let d = evaluate_spec(attempt, t.depth, t.heads, t.connections);
            let dep = dependency_masks_spec(t);
            &&& d.full_diffusion == forall|o: int| 0 <= o < 8 ==> popcount8(#[trigger] dep[o]) == 8
            &&& d.dead_inputs == unreached_below(masks_or(dep, 8), 8)
        }),
{
    let dep = dependency_masks_spec(t);
    assert forall|o: int| 0 <= o < 8 implies (#[trigger] dep[o] == 0xffu8 <==> popcount8(dep[o]) == 8) by {
        lemma_popcount8_full(dep[o]);
    }
}

/// Diffusion coverage, per-output dependency counts and dead inputs of a
/// transformer.
pub fn diffusion_report(transformer: &GeneratedTransformer) -> (r: DiffusionReport)
    requires
        dependency_shape_ok(transformer@),
    ensures
        ({
            let dep = dependency_masks_spec(transformer@);
            &&& r.depth == transformer.depth
            &&& r.heads == transformer.heads
            &&& r.per_output_dependency_count@ == Seq::new(8, |o: int| popcount8(dep[o]) as usize)
            &&& r.full_diffusion == forall|o: int| 0 <= o < 8 ==> #[trigger] r.per_output_dependency_count@[o] == 8
            &&& r.covered_pairs == sum_below(r.per_output_dependency_count@, 8)
            &&& r.dead_inputs@ == unreached_below(masks_or(dep, 8), 8)
            &&& forall|o: int| 0 <= o < 8 ==> #[trigger] r.per_output_dependency_count@[o] == mask_set(dep[o]).len()
            &&& forall|i: usize|
                #[trigger] r.dead_inputs@.contains(i) <==> (i < 8 && forall|o: int|
                    0 <= o < 8 ==> !#[trigger] mask_set(dep[o]).contains(i))
            &&& forall|a: int, b: int|
                0 <= a < b < r.dead_inputs@.len() ==> #[trigger] r.dead_inputs@[a] < #[trigger] r.dead_inputs@[b]
            &&& r.covered_pairs == r.per_output_dependency_count@[0] + r.per_output_dependency_count@[1]
                + r.per_output_dependency_count@[2] + r.per_output_dependency_count@[3]
                + r.per_output_dependency_count@[4] + r.per_output_dependency_count@[5]
                + r.per_output_dependency_count@[6] + r.per_output_dependency_count@[7]
        }),
{
    proof {
        let dep = dependency_masks_spec(transformer@);
        assert forall|o: int| 0 <= o < 8 implies popcount8(#[trigger] dep[o]) == mask_set(dep[o]).len() by {
            lemma_popcount_counts_inputs(dep[o]);
        }
        lemma_dead_inputs_are_unreached(dep);
    }
    let dep = dependency_masks(transformer);
    let ghost counts_spec = Seq::new(8, |o: int| popcount8(dep@[o]) as usize);
    let mut counts: Vec<usize> = Vec::new();
    let mut full = true;
    let mut covered: usize = 0;
    let mut reach: u8 = 0;
    let mut o: usize = 0;
    while o < 8
        invariant
            o <= 8,
            dep@.len() == 8,
            counts_spec == Seq::new(8, |o: int| popcount8(dep@[o]) as usize),
            counts@ == counts_spec.subrange(0, o as int),
            full == forall|j: int| 0 <= j < o ==> #[trigger] counts_spec[j] == 8,
            covered == sum_below(counts_spec, o as nat),
            covered <= 8 * o,
            reach == masks_or(dep@, o as nat),
        decreases 8 - o,
    {
        let c = popcount_u8(dep[o]) as usize;
        proof {
            let m = dep@[o as int];
            crate::topology::lemma_popcount8_le(m);
        }
        counts.push(c);
        if c != 8 {
            full = false;
        }
        covered = covered + c;
        reach = reach | dep[o];
        o += 1;
        proof {
            assert(counts@ =~= counts_spec.subrange(0, o as int));
            assert(counts_spec[o - 1] == c);
            assert(sum_below(counts_spec, o as nat) == sum_below(counts_spec, (o - 1) as nat) + c);
        }
    }
    let mut dead_inputs: Vec<usize> = Vec::new();
    let mut i: usize = 0;
    while i < 8
        invariant
            i <= 8,
            dead_inputs@ == unreached_below(reach, i as nat),
        decreases 8 - i,
    {
        if (reach >> (i as u8)) & 1 != 1 {
            dead_inputs.push(i);
        }
        i += 1;
    }
    proof {
        assert(counts@ =~= counts_spec);
        lemma_sum_of_eight(counts@);
    }
    DiffusionReport {
        depth: transformer.depth,
        heads: transformer.heads,
        full_diffusion: full,
        covered_pairs: covered,
        per_output_dependency_count: counts,
        dead_inputs,
    }
}

} // verus!

verus! {

// ============================================================
// Weight distribution
// ============================================================

/// The weights of the first `k` nodes of a head, node by node.
pub open spec fn head_weight_list(head: Seq<NodeView>, k: nat) -> Seq<u8>
    decreases k,
{
    if k == 0 {
        Seq::empty()
    } else {
        head_weight_list(head, (k - 1) as nat) + head[k - 1].1
    }
}

/// The weights of the first `k` heads of a layer, head by head.
pub open spec fn layer_weight_list(layer: Seq<Seq<NodeView>>, k: nat) -> Seq<u8>
    decreases k,
{
    if k == 0 {
        Seq::empty()
    } else {
        layer_weight_list(layer, (k - 1) as nat) + head_weight_list(layer[k - 1], layer[k - 1].len())
    }
}

/// The weights of the first `k` layers, layer by layer.
pub open spec fn weight_list(conns: ConnectionsView, k: nat) -> Seq<u8>
    decreases k,
{
    if k == 0 {
        Seq::empty()
    } else {
        weight_list(conns, (k - 1) as nat) + layer_weight_list(conns[k - 1], conns[k - 1].len())
    }
}

/// The sources of the first `k` nodes of a head, node by node.
pub open spec fn head_source_list(head: Seq<NodeView>, k: nat) -> Seq<usize>
    decreases k,
{
    if k == 0 {
        Seq::empty()
    } else {
        head_source_list(head, (k - 1) as nat) + head[k - 1].0
    }
}

/// The sources of the first `k` heads of a layer, head by head.
pub open spec fn layer_source_list(layer: Seq<Seq<NodeView>>, k: nat) -> Seq<usize>
    decreases k,
{
    if k == 0 {
        Seq::empty()
    } else {
        layer_source_list(layer, (k - 1) as nat) + head_source_list(layer[k - 1], layer[k - 1].len())
    }
}

/// The sources of the first `k` layers, layer by layer.
pub open spec fn source_list(conns: ConnectionsView, k: nat) -> Seq<usize>
    decreases k,
{
    if k == 0 {
        Seq::empty()
    } else {
        source_list(conns, (k - 1) as nat) + layer_source_list(conns[k - 1], conns[k - 1].len())
    }
}

/// Every weight of every connection record, in table order.
pub open spec fn transformer_weights(t: TransformerModel) -> Seq<u8> {
    weight_list(t.connections, t.connections.len())
}

/// Every source of every connection record, in table order.
pub open spec fn transformer_sources(t: TransformerModel) -> Seq<usize> {
    source_list(t.connections, t.connections.len())
}

/// Appends `s` to `v`.
fn extend_usizes(v: &mut Vec<usize>, s: &[usize])
    ensures
        final(v)@ == old(v)@ + s@,
{
    let ghost v0 = v@;
    let mut i: usize = 0;
    while i < s.len()
        invariant
            i <= s@.len(),
            v@ == v0 + s@.subrange(0, i as int),
        decreases s@.len() - i,
    {
        v.push(s[i]);
        i += 1;
        proof {
            assert(v@ =~= v0 + s@.subrange(0, i as int));
        }
    }
    proof {
        assert(s@.subrange(0, s@.len() as int) =~= s@);
    }
}

/// The weights and the sources of every connection record of
/// `transformer`, in table order.
pub fn connection_weights_and_sources(transformer: &GeneratedTransformer) -> (r: (Vec<u8>, Vec<usize>))
    ensures
        r.0@ == transformer_weights(transformer@),
        r.1@ == transformer_sources(transformer@),
{
    let ghost conns = transformer@.connections;
    let mut weights: Vec<u8> = Vec::new();
    let mut sources: Vec<usize> = Vec::new();
    let mut l: usize = 0;
    while l < transformer.connections.len()
        invariant
            l <= transformer.connections@.len(),
            conns == transformer@.connections,
            conns.len() == transformer.connections@.len(),
            weights@ == weight_list(conns, l as nat),
            sources@ == source_list(conns, l as nat),
        decreases transformer.connections@.len() - l,
    {
        let layer = &transformer.connections[l];
        assert(layer.deep_view() == conns[l as int]);
        let ghost lv = conns[l as int];
        let mut h: usize = 0;
        while h < layer.len()
            invariant
                l < conns.len(),
                conns == transformer@.connections,
                conns.len() == transformer.connections@.len(),
                lv == conns[l as int],
                layer.deep_view() == lv,
                lv.len() == layer@.len(),
                h <= layer@.len(),
                weights@ == weight_list(conns, l as nat) + layer_weight_list(lv, h as nat),
                sources@ == source_list(conns, l as nat) + layer_source_list(lv, h as nat),
            decreases layer@.len() - h,
        {
            let head = &layer[h];
            assert(head.deep_view() == lv[h as int]);
            let ghost hv = lv[h as int];
            let mut n: usize = 0;
            while n < head.len()
                invariant
                    l < conns.len(),
                    h < lv.len(),
                    conns == transformer@.connections,
                    conns.len() == transformer.connections@.len(),
                    lv == conns[l as int],
                    lv.len() == layer@.len(),
                    hv == lv[h as int],
                    head.deep_view() == hv,
                    hv.len() == head@.len(),
                    n <= head@.len(),
                    weights@ == weight_list(conns, l as nat) + layer_weight_list(lv, h as nat) + head_weight_list(
                        hv,
                        n as nat,
                    ),
                    sources@ == source_list(conns, l as nat) + layer_source_list(lv, h as nat) + head_source_list(
                        hv,
                        n as nat,
                    ),
                decreases head@.len() - n,
            {
                let node = &head[n];
                assert(node.0@ == hv[n as int].0 && node.1@ == hv[n as int].1) by {
                    assert(head.deep_view()[n as int] == node.deep_view());
                }
                crate::kdf::append_bytes(&mut weights, node.1.as_slice());
                extend_usizes(&mut sources, node.0.as_slice());
                n += 1;
                proof {
                    assert(weights@ =~= weight_list(conns, l as nat) + layer_weight_list(lv, h as nat)
                        + head_weight_list(hv, n as nat));
                    assert(sources@ =~= source_list(conns, l as nat) + layer_source_list(lv, h as nat)
                        + head_source_list(hv, n as nat));
                }
            }
            h += 1;
            proof {
                assert(weights@ =~= weight_list(conns, l as nat) + layer_weight_list(lv, h as nat));
                assert(sources@ =~= source_list(conns, l as nat) + layer_source_list(lv, h as nat));
            }
        }
        l += 1;
        proof {
            assert(weights@ =~= weight_list(conns, l as nat));
            assert(sources@ =~= source_list(conns, l as nat));
        }
    }
    (weights, sources)
}

/// Number of occurrences of `x` in `s`.
pub open spec fn value_count(s: Seq<usize>, x: usize) -> nat
    decreases s.len(),
{
    if s.len() == 0 {
        0
    } else {
        value_count(s.drop_last(), x) + if s.last() == x {
            1nat
        } else {
            0nat
        }
    }
}

/// Each value occurring in `s`, mapped to its number of occurrences.
pub open spec fn usage_map(s: Seq<usize>) -> Map<usize, usize> {
    Map::new(|x: usize| s.contains(x), |x: usize| value_count(s, x) as usize)
}

/// The positions at which `s` holds `x`.
pub open spec fn positions_of(s: Seq<usize>, x: usize) -> Set<int> {
    Set::new(|i: int| 0 <= i < s.len() && s[i] == x)
}

/// The number of times a value occurs is the number of positions holding
/// it: `value_count(s, x) == |{i : s[i] = x}|`.
pub proof fn lemma_value_count_counts_positions(s: Seq<usize>, x: usize)
    ensures
        positions_of(s, x).finite(),
        value_count(s, x) == positions_of(s, x).len(),
    decreases s.len(),
{
    if s.len() == 0 {
        assert(positions_of(s, x) =~= Set::<int>::empty());
    } else {
        let p = s.drop_last();
        let j = s.len() - 1;
        lemma_value_count_counts_positions(p, x);
        assert(!positions_of(p, x).contains(j));
        if s.last() == x {
            assert(positions_of(s, x) =~= positions_of(p, x).insert(j));
        } else {
            assert(positions_of(s, x) =~= positions_of(p, x));
        }
    }
}

proof fn lemma_value_count_bound(s: Seq<usize>, x: usize)
    ensures
        value_count(s, x) <= s.len(),
        value_count(s, x) > 0 <==> s.contains(x),
    decreases s.len(),
{
    if s.len() > 0 {
        lemma_value_count_bound(s.drop_last(), x);
        if s.drop_last().contains(x) {
            let j = choose|j: int| 0 <= j < s.drop_last().len() && s.drop_last()[j] == x;
            assert(s[j] == x);
        }
        if s.contains(x) && s.last() != x {
            let j = choose|j: int| 0 <= j < s.len() && s[j] == x;
            assert(s.drop_last()[j] == x);
        }
    }
}

/// Number of occurrences of every source.
fn count_usage(sources: &[usize]) -> (m: HashMap<usize, usize>)
    ensures
        m@ == usage_map(sources@),
{
    broadcast use vstd::std_specs::hash::group_hash_axioms;

    let mut m: HashMap<usize, usize> = HashMap::new();
    let mut i: usize = 0;
    while i < sources.len()
        invariant
            i <= sources@.len(),
            m@ == usage_map(sources@.subrange(0, i as int)),
        decreases sources@.len() - i,
    {
        let ghost pre = sources@.subrange(0, i as int);
        let ghost next = sources@.subrange(0, i + 1);
        let x = sources[i];
        proof {
            assert(next.drop_last() =~= pre);
            assert(next.last() == x);
            lemma_value_count_bound(pre, x);
        }
        let c: usize = match m.get(&x) {
            Some(c) => *c,
            None => 0,
        };
        proof {
            assert(c == value_count(pre, x));
        }
        m.insert(x, c + 1);
        i += 1;
        proof {
            assert forall|y: usize| #[trigger] next.contains(y) == (pre.contains(y) || y == x) by {
                if pre.contains(y) {
                    let j = choose|j: int| 0 <= j < pre.len() && pre[j] == y;
                    assert(next[j] == y);
                }
                if next.contains(y) && y != x {
                    let j = choose|j: int| 0 <= j < next.len() && next[j] == y;
                    assert(pre[j] == y);
                }
                if y == x {
                    assert(next[i - 1] == y);
                }
            }
            assert(m@ =~= usage_map(next));
        }
    }
    proof {
        assert(sources@.subrange(0, sources@.len() as int) =~= sources@);
    }
    m
}

/// Smallest byte of a non-empty sequence.
pub open spec fn byte_min(s: Seq<u8>) -> u8
    decreases s.len(),
{
    if s.len() <= 1 {
        s[0]
    } else if s.last() < byte_min(s.drop_last()) {
        s.last()
    } else {
        byte_min(s.drop_last())
    }
}

/// Largest byte of a non-empty sequence.
pub open spec fn byte_max(s: Seq<u8>) -> u8
    decreases s.len(),
{
    if s.len() <= 1 {
        s[0]
    } else if s.last() > byte_max(s.drop_last()) {
        s.last()
    } else {
        byte_max(s.drop_last())
    }
}

/// Number of zero bytes.
pub open spec fn byte_zeros(s: Seq<u8>) -> nat
    decreases s.len(),
{
    if s.len() == 0 {
        0
    } else {
        byte_zeros(s.drop_last()) + if s.last() == 0 {
            1nat
        } else {
            0nat
        }
    }
}

/// The smallest and the largest byte of a non-empty sequence are bytes of
/// it, no byte lies below the smallest and none above the largest.
pub proof fn lemma_byte_extremes(s: Seq<u8>)
    requires
        s.len() > 0,
    ensures
        exists|i: int| 0 <= i < s.len() && s[i] == byte_min(s),
        exists|i: int| 0 <= i < s.len() && s[i] == byte_max(s),
        forall|i: int| 0 <= i < s.len() ==> byte_min(s) <= #[trigger] s[i] <= byte_max(s),
    decreases s.len(),
{
    if s.len() == 1 {
        assert(s[0] == byte_min(s) && s[0] == byte_max(s));
    } else {
        let p = s.drop_last();
        lemma_byte_extremes(p);
        let imin = choose|i: int| 0 <= i < p.len() && p[i] == byte_min(p);
        let imax = choose|i: int| 0 <= i < p.len() && p[i] == byte_max(p);
        assert(s[imin] == p[imin] && s[imax] == p[imax]);
        let last = s.len() - 1;
        assert(s[last] == s.last());
        assert forall|i: int| 0 <= i < s.len() implies byte_min(s) <= #[trigger] s[i] <= byte_max(s) by {
            if i < last {
                assert(s[i] == p[i]);
            }
        }
    }
}

/// The positions of the zero bytes of `s`.
pub open spec fn zero_positions(s: Seq<u8>) -> Set<int> {
    Set::new(|i: int| 0 <= i < s.len() && s[i] == 0)
}

/// The zero count of a sequence is the number of its zero bytes:
/// `|{i : s[i] = 0}|`.
pub proof fn lemma_zeros_are_counted(s: Seq<u8>)
    ensures
        zero_positions(s).finite(),
        byte_zeros(s) == zero_positions(s).len(),
    decreases s.len(),
{
    if s.len() == 0 {
        assert(zero_positions(s) =~= Set::<int>::empty());
    } else {
        let p = s.drop_last();
        let j = s.len() - 1;
        lemma_zeros_are_counted(p);
        assert(!zero_positions(p).contains(j));
        if s.last() == 0 {
            assert(zero_positions(s) =~= zero_positions(p).insert(j));
        } else {
            assert(zero_positions(s) =~= zero_positions(p));
        }
    }
}

/// The integer part of a transformer's weight statistics: how many
/// weights it has, their extremes, how many are zero (always none for a
/// generated transformer), and how often each input position is used as
/// a source.
pub struct WeightSummary {
    pub count: usize,
    pub min: u8,
    pub max: u8,
    pub zero_count: usize,
    pub source_usage: HashMap<usize, usize>,
}

/// Weight count, extremes and zero count of `transformer`, and the number
/// of connection records naming each source.
pub fn weight_summary(transformer: &GeneratedTransformer) -> (r: WeightSummary)
    requires
        transformer_weights(transformer@).len() > 0,
    ensures
        ({
            let w = transformer_weights(transformer@);
            &&& r.count == w.len()
            &&& r.min == byte_min(w)
            &&& r.max == byte_max(w)
            &&& r.zero_count == byte_zeros(w)
            &&& r.source_usage@ == usage_map(transformer_sources(transformer@))
            &&& exists|i: int| 0 <= i < w.len() && w[i] == r.min
            &&& exists|i: int| 0 <= i < w.len() && w[i] == r.max
            &&& forall|i: int| 0 <= i < w.len() ==> r.min <= #[trigger] w[i] <= r.max
            &&& r.zero_count == zero_positions(w).len()
            &&& forall|x: usize| #[trigger] r.source_usage@.contains_key(x) <==> transformer_sources(transformer@).contains(x)
            &&& forall|x: usize|
                r.source_usage@.contains_key(x) ==> #[trigger] r.source_usage@[x] == positions_of(
                    transformer_sources(transformer@),
                    x,
                ).len()
        }),
{
    proof {
        lemma_byte_extremes(transformer_weights(transformer@));
        lemma_zeros_are_counted(transformer_weights(transformer@));
    }
    let (weights, sources) = connection_weights_and_sources(transformer);
    let mut min: u8 = weights[0];
    let mut max: u8 = weights[0];
    let mut zeros: usize = if weights[0] == 0 {
        1
    } else {
        0
    };
    proof {
        assert(weights@.subrange(0, 1).drop_last() =~= Seq::<u8>::empty());
        assert(byte_zeros(weights@.subrange(0, 1).drop_last()) == 0);
    }
    let mut i: usize = 1;
    while i < weights.len()
        invariant
            1 <= i <= weights@.len(),
            min == byte_min(weights@.subrange(0, i as int)),
            max == byte_max(weights@.subrange(0, i as int)),
            zeros == byte_zeros(weights@.subrange(0, i as int)),
            zeros <= i,
        decreases weights@.len() - i,
    {
        let w = weights[i];
        proof {
            let next = weights@.subrange(0, i + 1);
            assert(next.drop_last() =~= weights@.subrange(0, i as int));
            assert(next.last() == w);
        }
        if w < min {
            min = w;
        }
        if w > max {
            max = w;
        }
        if w == 0 {
            zeros = zeros + 1;
        }
        i += 1;
    }
    proof {
        assert(weights@.subrange(0, weights@.len() as int) =~= weights@);
    }
    let source_usage = count_usage(sources.as_slice());
    let ns = sources.len();
    proof {
        assert(sources@.len() == ns);
        assert forall|x: usize| #[trigger] usage_map(sources@).contains_key(x) implies usage_map(sources@)[x]
            == positions_of(sources@, x).len() by {
            lemma_value_count_counts_positions(sources@, x);
            lemma_value_count_bound(sources@, x);
        }
    }
    WeightSummary { count: weights.len(), min, max, zero_count: zeros, source_usage }
}

} // verus!

verus! {

// ============================================================
// Outputs depend only on their dependency sets
// ============================================================

proof fn lemma_mask_bits(a: u8, b: u8, i: u8, x: usize, d: usize)
    by (bit_vector)
    requires
        i < 8,
    ensures
        ((((a | b) >> i) & 1u8) == 1u8) == ((((a >> i) & 1u8) == 1u8) || (((b >> i) & 1u8) == 1u8)),
        (((1u8 << i) >> i) & 1u8) == 1u8,
        ((0u8 >> i) & 1u8) == 0u8,
        x < 256 && d < 256 ==> (x ^ d) < 256,
        ((a & 1u8) + ((a >> 1u8) & 1u8) + ((a >> 2u8) & 1u8) + ((a >> 3u8) & 1u8) + ((a >> 4u8) & 1u8) + ((a >> 5u8)
            & 1u8) + ((a >> 6u8) & 1u8) + ((a >> 7u8) & 1u8) == 8) == (a == 0xffu8),
{
}

/// `x` and `y` agree on every input position in mask `m`.
pub open spec fn agree_on(x: Seq<u8>, y: Seq<u8>, m: u8) -> bool {
    forall|i: int| 0 <= i < 8 && #[trigger] bit_of(m, i) ==> x[i] == y[i]
}

proof fn lemma_agree_or(x: Seq<u8>, y: Seq<u8>, a: u8, b: u8)
    requires
        agree_on(x, y, a | b),
    ensures
        agree_on(x, y, a),
        agree_on(x, y, b),
{
    assert forall|i: int| 0 <= i < 8 && #[trigger] bit_of(a, i) implies x[i] == y[i] by {
        lemma_mask_bits(a, b, i as u8, 0, 0);
        assert(bit_of(a | b, i));
    }
    assert forall|i: int| 0 <= i < 8 && #[trigger] bit_of(b, i) implies x[i] == y[i] by {
        lemma_mask_bits(a, b, i as u8, 0, 0);
        assert(bit_of(a | b, i));
    }
}

/// Agreement on the union of source masks is agreement on each of them.
proof fn lemma_agree_sources(x: Seq<u8>, y: Seq<u8>, dep: Seq<u8>, src: Seq<usize>, m: nat)
    requires
        agree_on(x, y, sources_or(dep, src, m)),
    ensures
        forall|j: int| 0 <= j < m ==> agree_on(x, y, #[trigger] dep[src[j] as int]),
    decreases m,
{
    if m > 0 {
        lemma_agree_or(x, y, sources_or(dep, src, (m - 1) as nat), dep[src[m - 1] as int]);
        lemma_agree_sources(x, y, dep, src, (m - 1) as nat);
    }
}

/// Agreement on the union over heads is agreement on each head's sources.
proof fn lemma_agree_heads(x: Seq<u8>, y: Seq<u8>, dep: Seq<u8>, layer: Seq<Seq<NodeView>>, h: nat, o: int)
    requires
        agree_on(x, y, heads_or(dep, layer, h, o)),
    ensures
        forall|hh: int|
            0 <= hh < h ==> agree_on(x, y, #[trigger] sources_or(dep, layer[hh][o].0, layer[hh][o].0.len())),
    decreases h,
{
    if h > 0 {
        lemma_agree_or(
            x,
            y,
            heads_or(dep, layer, (h - 1) as nat, o),
            sources_or(dep, layer[h - 1][o].0, layer[h - 1][o].0.len()),
        );
        lemma_agree_heads(x, y, dep, layer, (h - 1) as nat, o);
    }
}

proof fn lemma_node_acc_same(s: Seq<u8>, r: Seq<u8>, src: Seq<usize>, w: Seq<u8>, k: nat)
    requires
        forall|j: int| 0 <= j < k ==> s[#[trigger] src[j] as int] == r[src[j] as int],
    ensures
        node_acc(s, src, w, k) == node_acc(r, src, w, k),
    decreases k,
{
    if k > 0 {
        lemma_node_acc_same(s, r, src, w, (k - 1) as nat);
    }
}

/// One layer: positions of the next state agree when the inputs agree on
/// their masks, given that the current state's positions do.
proof fn lemma_layer_agree(
    x: Seq<u8>,
    y: Seq<u8>,
    s: Seq<u8>,
    r: Seq<u8>,
    dep: Seq<u8>,
    layer: Seq<Seq<NodeView>>,
    sbox: Seq<u8>,
    h: nat,
    o: int,
)
    requires
        forall|p: int| 0 <= p < 8 && agree_on(x, y, #[trigger] dep[p]) ==> s[p] == r[p],
        forall|hh: int, k: int|
            0 <= hh < h && 0 <= k < node_len(layer[hh][o]) ==> #[trigger] layer[hh][o].0[k] < 8,
        agree_on(x, y, heads_or(dep, layer, h, o)),
    ensures
        heads_xor(s, layer, sbox, h, o) == heads_xor(r, layer, sbox, h, o),
    decreases h,
{
    lemma_agree_heads(x, y, dep, layer, h, o);
    if h > 0 {
        lemma_agree_or(
            x,
            y,
            heads_or(dep, layer, (h - 1) as nat, o),
            sources_or(dep, layer[h - 1][o].0, layer[h - 1][o].0.len()),
        );
        lemma_layer_agree(x, y, s, r, dep, layer, sbox, (h - 1) as nat, o);
        let node = layer[h - 1][o];
        assert(agree_on(x, y, sources_or(dep, node.0, node.0.len())));
        lemma_agree_sources(x, y, dep, node.0, node.0.len());
        assert forall|j: int| 0 <= j < node_len(node) implies s[#[trigger] node.0[j] as int] == r[node.0[j] as int] by {
            assert(agree_on(x, y, dep[node.0[j] as int]));
            assert(layer[h - 1][o].0[j] < 8);
        }
        lemma_node_acc_same(s, r, node.0, node.1, node_len(node));
    }
}

/// The state after `n` layers agrees at every position whose dependency
/// mask the inputs agree on.
proof fn lemma_layers_agree(x: Seq<u8>, y: Seq<u8>, t: TransformerModel, n: nat)
    requires
        n <= t.depth,
        x.len() == 8,
        y.len() == 8,
        transformer_wf(t, 8),
    ensures
        forall|p: int|
            0 <= p < 8 && agree_on(x, y, #[trigger] dep_masks(t.connections, t.heads, n)[p]) ==> transform_layers(
                x,
                t,
                n,
            )[p] == transform_layers(y, t, n)[p],
    decreases n,
{
    if n == 0 {
        assert forall|p: int| 0 <= p < 8 && agree_on(x, y, #[trigger] dep_masks(t.connections, t.heads, n)[p]) implies x[p]
            == y[p] by {
            lemma_mask_bits(0, 0, p as u8, 0, 0);
            assert(bit_of(unit_masks()[p], p));
        }
    } else {
        lemma_layers_agree(x, y, t, (n - 1) as nat);
        let dep = dep_masks(t.connections, t.heads, (n - 1) as nat);
        let layer = t.connections[n - 1];
        let s = transform_layers(x, t, (n - 1) as nat);
        let r = transform_layers(y, t, (n - 1) as nat);
        assert forall|p: int| 0 <= p < 8 && agree_on(x, y, #[trigger] dep_masks(t.connections, t.heads, n)[p]) implies transform_layers(
            x,
            t,
            n,
        )[p] == transform_layers(y, t, n)[p] by {
            assert(dep_masks(t.connections, t.heads, n)[p] == heads_or(dep, layer, t.heads, p));
            assert forall|hh: int, k: int| 0 <= hh < t.heads && 0 <= k < node_len(layer[hh][p]) implies #[trigger] layer[hh][p].0[k]
                < 8 by {
                assert(t.connections[n - 1][hh].len() >= 8);
                assert(t.connections[n - 1][hh][p].0[k] < if n - 1 == 0 { 8nat } else { 8nat });
            }
            lemma_layer_agree(x, y, s, r, dep, layer, t.sboxes[n - 1], t.heads, p);
        }
    }
}

/// An output of the transformer depends on no input outside its
/// dependency set: inputs that agree on output `o`'s set give the same
/// output `o`.
pub proof fn lemma_output_depends_only_on_its_set(t: TransformerModel, x: Seq<u8>, y: Seq<u8>, o: int)
    requires
        transformer_wf(t, 8),
        x.len() == 8,
        y.len() == 8,
        0 <= o < 8,
        forall|i: usize| #[trigger] mask_set(dependency_masks_spec(t)[o]).contains(i) ==> x[i as int] == y[i as int],
    ensures
        transform_spec(x, t)[o] == transform_spec(y, t)[o],
{
    let m = dependency_masks_spec(t)[o];
    assert forall|i: int| 0 <= i < 8 && #[trigger] bit_of(m, i) implies x[i] == y[i] by {
        assert(mask_set(m).contains(i as usize));
    }
    lemma_layers_agree(x, y, t, t.depth);
}

/// The topology screening and the diffusion report agree on a
/// transformer's structure: full diffusion in one is full diffusion in the
/// other, and both name the same dead inputs.
pub proof fn lemma_screening_agrees_with_report(t: TransformerModel, attempt: u32)
    ensures
        ({
            let d = crate::topology::evaluate_spec(attempt, t.depth, t.heads, t.connections);
            let dep = dependency_masks_spec(t);
            &&& d.attempt == attempt
            &&& d.full_diffusion == forall|o: int| 0 <= o < 8 ==> #[trigger] popcount8(dep[o]) == 8
            &&& d.dead_inputs == unreached_below(masks_or(dep, 8), 8)
        }),
{
    let dep = dependency_masks_spec(t);
    let d = crate::topology::evaluate_spec(attempt, t.depth, t.heads, t.connections);
    assert forall|o: int| 0 <= o < 8 implies (#[trigger] popcount8(dep[o]) == 8) == (dep[o] == 0xffu8) by {
        lemma_mask_bits(dep[o], 0, 0, 0, 0);
    }
    if d.full_diffusion {
        assert forall|o: int| 0 <= o < 8 implies #[trigger] popcount8(dep[o]) == 8 by {
            assert(dep[o] == 0xffu8);
        }
    }
    if forall|o: int| 0 <= o < 8 ==> #[trigger] popcount8(dep[o]) == 8 {
        assert forall|o: int| 0 <= o < 8 implies #[trigger] dep[o] == 0xffu8 by {
            assert(popcount8(dep[o]) == 8);
        }
    }
}

} // verus!
