//! Exact (non-sampled) differential analysis of layer 0 of a transformer.
//!
//! At layer 0 a node's accumulator difference `w1*Δs1 XOR w2*Δs2 XOR
//! w3*Δs3` does not depend on the base state (GF(2^8) multiplication by a
//! constant is GF(2)-linear), and the layer S-box is a bijection, so a
//! head whose accumulator difference is zero is inactive for every base
//! state and a lone active head is active for every base state. With two
//! or more active heads, the output difference can cancel only when a
//! single base state makes all their contributions XOR to zero: the
//! joint map from the base state to the heads' accumulators is linear,
//! so its image is the span of the images of the unit states, enumerated
//! through an echelon basis.

use crate::analyzer::{ddt_out, ddt_reaches, ddt_row_below, sbox_ddt_row};
use crate::gf::{gf_mul_spec, lemma_gf_mul_xor_left, lemma_gf_mul_zero};
use crate::span::{
    basis_of, basis_vectors, generates, in_span, lemma_basis_of, lemma_basis_vectors,
    lemma_generates_trans, lemma_span_member, lemma_span_subset, lemma_span_xor, lemma_span_zero,
    lemma_xor_u64_facts, xor_sel,
};
use crate::span::{basis_insert, lemma_basis_insert_zero, lemma_echelon_bits, XorBasis64};
use crate::sbox::is_byte_bijection;
use crate::transformer::{
    heads_xor, layer_spec, node_acc, node_accumulate, node_len, node_output, GeneratedTransformer, NodeView,
    TransformerModel,
};
use vstd::prelude::*;

verus! {

// ============================================================
// Byte states and the joint accumulator map
// ============================================================

/// One layer's connection records: `layer[head][node]`.
pub type LayerView = Seq<Seq<NodeView>>;

/// The state of length `n` holding `v` at position `p` and 0 elsewhere.
pub open spec fn unit_state(n: nat, p: int, v: u8) -> Seq<u8> {
    Seq::new(n, |i: int| if i == p { v } else { 0u8 })
}

/// The all-zero state of length `n`.
pub open spec fn zero_state(n: nat) -> Seq<u8> {
    Seq::new(n, |i: int| 0u8)
}

/// Bytewise XOR of two states.
pub open spec fn xor_state(x: Seq<u8>, y: Seq<u8>) -> Seq<u8> {
    Seq::new(x.len(), |i: int| x[i] ^ y[i])
}

/// The sources of node `o` of every listed head index states of length `n`.
pub open spec fn heads_sources_below(lv: LayerView, o: int, hs: Seq<usize>, n: nat) -> bool {
    forall|j: int, k: int|
        0 <= j < hs.len() && 0 <= k < node_len(lv[hs[j] as int][o]) ==> #[trigger] lv[hs[j] as int][o].0[k] < n
}

/// The accumulator of node `o` of head `h` over state `x`.
pub open spec fn head_acc(lv: LayerView, h: int, o: int, x: Seq<u8>) -> u8 {
    node_acc(x, lv[h][o].0, lv[h][o].1, node_len(lv[h][o]))
}

/// The accumulators of the first `k` listed heads packed into a `u64`,
/// head `j` in byte `j`.
pub open spec fn pack(lv: LayerView, o: int, hs: Seq<usize>, x: Seq<u8>, k: nat) -> u64
    decreases k,
{
    if k == 0 {
        0
    } else {
        pack(lv, o, hs, x, (k - 1) as nat) ^ ((head_acc(lv, hs[k - 1] as int, o, x) as u64) << ((8 * (k
            - 1)) as u64))
    }
}

/// Byte `j` of `y`.
pub open spec fn byte_of(y: u64, j: nat) -> u8 {
    ((y >> ((8 * j) as u64)) & 0xffu64) as u8
}

pub(crate) proof fn lemma_xor_u8_facts(a: u8, b: u8, c: u8, d: u8)
    by (bit_vector)
    ensures
        (a ^ b) ^ (c ^ d) == (a ^ c) ^ (b ^ d),
        a ^ 0 == a,
        0u8 ^ a == a,
        a ^ a == 0,
{
}

proof fn lemma_node_acc_xor(x: Seq<u8>, y: Seq<u8>, src: Seq<usize>, w: Seq<u8>, m: nat)
    requires
        x.len() == y.len(),
        m <= src.len(),
        m <= w.len(),
        forall|k: int| 0 <= k < m ==> #[trigger] src[k] < x.len(),
    ensures
        node_acc(xor_state(x, y), src, w, m) == node_acc(x, src, w, m) ^ node_acc(y, src, w, m),
    decreases m,
{
    if m == 0 {
        lemma_xor_u8_facts(0, 0, 0, 0);
    } else {
        lemma_node_acc_xor(x, y, src, w, (m - 1) as nat);
        let s = src[m - 1] as int;
        lemma_gf_mul_xor_left(x[s], y[s], w[m - 1]);
        lemma_xor_u8_facts(
            node_acc(x, src, w, (m - 1) as nat),
            node_acc(y, src, w, (m - 1) as nat),
            gf_mul_spec(x[s], w[m - 1]),
            gf_mul_spec(y[s], w[m - 1]),
        );
    }
}

proof fn lemma_node_acc_zero(n: nat, src: Seq<usize>, w: Seq<u8>, m: nat)
    requires
        m <= src.len(),
        m <= w.len(),
        forall|k: int| 0 <= k < m ==> #[trigger] src[k] < n,
    ensures
        node_acc(zero_state(n), src, w, m) == 0,
    decreases m,
{
    if m > 0 {
        lemma_node_acc_zero(n, src, w, (m - 1) as nat);
        lemma_gf_mul_zero(w[m - 1]);
        lemma_xor_u8_facts(0, 0, 0, 0);
    }
}

proof fn lemma_head_acc_xor(lv: LayerView, o: int, hs: Seq<usize>, j: int, x: Seq<u8>, y: Seq<u8>)
    requires
        heads_sources_below(lv, o, hs, x.len()),
        x.len() == y.len(),
        0 <= j < hs.len(),
    ensures
        head_acc(lv, hs[j] as int, o, xor_state(x, y)) == head_acc(lv, hs[j] as int, o, x) ^ head_acc(
            lv,
            hs[j] as int,
            o,
            y,
        ),
        head_acc(lv, hs[j] as int, o, zero_state(x.len())) == 0,
{
    let node = lv[hs[j] as int][o];
    assert forall|k: int| 0 <= k < node_len(node) implies #[trigger] node.0[k] < x.len() by {
        assert(lv[hs[j] as int][o].0[k] < x.len());
    }
    lemma_node_acc_xor(x, y, node.0, node.1, node_len(node));
    lemma_node_acc_zero(x.len(), node.0, node.1, node_len(node));
}

proof fn lemma_shift_xor(a: u8, b: u8, s: u64)
    ensures
        (((a ^ b) as u64) << s) == ((a as u64) << s) ^ ((b as u64) << s),
{
    let aa = a as u64;
    let bb = b as u64;
    assert(((a ^ b) as u64) == aa ^ bb);
    assert(((aa ^ bb) << s) == (aa << s) ^ (bb << s)) by (bit_vector);
}

/// The packed accumulators are linear in the state.
proof fn lemma_pack_xor(lv: LayerView, o: int, hs: Seq<usize>, x: Seq<u8>, y: Seq<u8>, k: nat)
    requires
        heads_sources_below(lv, o, hs, x.len()),
        x.len() == y.len(),
        k <= hs.len(),
    ensures
        pack(lv, o, hs, xor_state(x, y), k) == pack(lv, o, hs, x, k) ^ pack(lv, o, hs, y, k),
        pack(lv, o, hs, zero_state(x.len()), k) == 0,
    decreases k,
{
    if k == 0 {
        lemma_xor_u64_facts(0, 0, 0, 0);
    } else {
        lemma_pack_xor(lv, o, hs, x, y, (k - 1) as nat);
        lemma_head_acc_xor(lv, o, hs, k - 1, x, y);
        let s = (8 * (k - 1)) as u64;
        let ax = head_acc(lv, hs[k - 1] as int, o, x);
        let ay = head_acc(lv, hs[k - 1] as int, o, y);
        lemma_shift_xor(ax, ay, s);
        lemma_xor_u64_facts(
            pack(lv, o, hs, x, (k - 1) as nat),
            pack(lv, o, hs, y, (k - 1) as nat),
            (ax as u64) << s,
            (ay as u64) << s,
        );
        assert(((0u8 as u64) << s) == 0) by (bit_vector);
        lemma_xor_u64_facts(0, 0, 0, 0);
    }
}

proof fn lemma_pack_high(lv: LayerView, o: int, hs: Seq<usize>, x: Seq<u8>, k: nat)
    requires
        k < 8,
        k <= hs.len(),
    ensures
        pack(lv, o, hs, x, k) >> ((8 * k) as u64) == 0,
    decreases k,
{
    if k == 0 {
        assert((0u64 >> 0u64) == 0) by (bit_vector);
    } else {
        lemma_pack_high(lv, o, hs, x, (k - 1) as nat);
        let p = pack(lv, o, hs, x, (k - 1) as nat);
        let a = head_acc(lv, hs[k - 1] as int, o, x) as u64;
        let s = (8 * (k - 1)) as u64;
        assert((p ^ (a << s)) >> (s + 8) == 0) by (bit_vector)
            requires
                p >> s == 0,
                a < 256,
                s <= 48,
        ;
    }
}

/// Byte `j` of the packed accumulators is head `j`'s accumulator.
proof fn lemma_pack_bytes(lv: LayerView, o: int, hs: Seq<usize>, x: Seq<u8>, k: nat)
    requires
        k <= 8,
        k <= hs.len(),
    ensures
        forall|j: nat| j < k ==> #[trigger] byte_of(pack(lv, o, hs, x, k), j) == head_acc(lv, hs[j as int] as int, o, x),
    decreases k,
{
    if k > 0 {
        lemma_pack_bytes(lv, o, hs, x, (k - 1) as nat);
        lemma_pack_high(lv, o, hs, x, (k - 1) as nat);
        let p = pack(lv, o, hs, x, (k - 1) as nat);
        let a8 = head_acc(lv, hs[k - 1] as int, o, x);
        let a = a8 as u64;
        let s = (8 * (k - 1)) as u64;
        assert forall|j: nat| j < k implies #[trigger] byte_of(pack(lv, o, hs, x, k), j) == head_acc(
            lv,
            hs[j as int] as int,
            o,
            x,
        ) by {
            let t = (8 * j) as u64;
            if j == k - 1 {
                assert(((p ^ (a << s)) >> s) & 0xffu64 == a) by (bit_vector)
                    requires
                        p >> s == 0,
                        a < 256,
                        s <= 56,
                ;
            } else {
                assert(((p ^ (a << s)) >> t) & 0xffu64 == (p >> t) & 0xffu64) by (bit_vector)
                    requires
                        t + 8 <= s,
                        s <= 56,
                        a < 256,
                ;
                assert(byte_of(p, j) == head_acc(lv, hs[j as int] as int, o, x));
            }
        }
    }
}

// ============================================================
// Joint output differences
// ============================================================

/// XOR, over the first `k` listed heads, of their output differences
/// `S(A(x)) XOR S(A(x) XOR c)` at base state `x`.
pub open spec fn joint_diff(
    lv: LayerView,
    o: int,
    hs: Seq<usize>,
    cs: Seq<u8>,
    sbox: Seq<u8>,
    x: Seq<u8>,
    k: nat,
) -> u8
    decreases k,
{
    if k == 0 {
        0
    } else {
        let a = head_acc(lv, hs[k - 1] as int, o, x);
        joint_diff(lv, o, hs, cs, sbox, x, (k - 1) as nat) ^ (sbox[a as int] ^ sbox[(a ^ cs[k - 1]) as int])
    }
}

/// The same XOR computed from packed accumulators `y`.
pub open spec fn joint_diff_packed(cs: Seq<u8>, sbox: Seq<u8>, y: u64, k: nat) -> u8
    decreases k,
{
    if k == 0 {
        0
    } else {
        let b = byte_of(y, (k - 1) as nat);
        joint_diff_packed(cs, sbox, y, (k - 1) as nat) ^ (sbox[b as int] ^ sbox[(b ^ cs[k - 1]) as int])
    }
}

/// Some base state of length `n` makes the listed heads' output
/// differences cancel at node `o`.
pub open spec fn jointly_realizable(lv: LayerView, o: int, hs: Seq<usize>, cs: Seq<u8>, sbox: Seq<u8>, n: nat) -> bool {
    exists|x: Seq<u8>| x.len() == n && #[trigger] joint_diff(lv, o, hs, cs, sbox, x, hs.len()) == 0
}

proof fn lemma_joint_diff_packed(lv: LayerView, o: int, hs: Seq<usize>, cs: Seq<u8>, sbox: Seq<u8>, x: Seq<u8>, k: nat)
    requires
        k <= hs.len(),
        hs.len() <= 8,
    ensures
        joint_diff(lv, o, hs, cs, sbox, x, k) == joint_diff_packed(cs, sbox, pack(lv, o, hs, x, hs.len()), k),
    decreases k,
{
    if k > 0 {
        lemma_joint_diff_packed(lv, o, hs, cs, sbox, x, (k - 1) as nat);
        lemma_pack_bytes(lv, o, hs, x, hs.len());
        assert(byte_of(pack(lv, o, hs, x, hs.len()), (k - 1) as nat) == head_acc(lv, hs[k - 1] as int, o, x));
    }
}

// ============================================================
// The image of the joint map
// ============================================================

/// The images of the unit states `unit_state(n, i / 8, 1 << (i % 8))`.
pub open spec fn joint_generators(lv: LayerView, o: int, hs: Seq<usize>, n: nat) -> Seq<u64> {
    Seq::new(
        n * 8,
        |i: int| pack(lv, o, hs, unit_state(n, i / 8, (1u8 << ((i % 8) as u8)) as u8), hs.len()),
    )
}

/// The state whose bits are the selected unit states among the first `m`.
pub open spec fn state_of_sel(n: nat, sel: Seq<bool>, m: nat) -> Seq<u8>
    decreases m,
{
    if m == 0 {
        zero_state(n)
    } else if sel[m - 1] {
        xor_state(state_of_sel(n, sel, (m - 1) as nat), unit_state(n, (m - 1) / 8, (1u8 << (((m - 1) % 8) as u8)) as u8))
    } else {
        state_of_sel(n, sel, (m - 1) as nat)
    }
}

proof fn lemma_state_of_sel_len(n: nat, sel: Seq<bool>, m: nat)
    ensures
        state_of_sel(n, sel, m).len() == n,
    decreases m,
{
    if m > 0 {
        lemma_state_of_sel_len(n, sel, (m - 1) as nat);
    }
}

/// Every XOR of generators is the image of some state.
proof fn lemma_sel_is_image(lv: LayerView, o: int, hs: Seq<usize>, n: nat, sel: Seq<bool>, m: nat)
    requires
        heads_sources_below(lv, o, hs, n),
        m <= n * 8,
        sel.len() >= m,
    ensures
        pack(lv, o, hs, state_of_sel(n, sel, m), hs.len()) == xor_sel(
            joint_generators(lv, o, hs, n).subrange(0, m as int),
            sel.subrange(0, m as int),
        ),
    decreases m,
{
    let gens = joint_generators(lv, o, hs, n);
    lemma_state_of_sel_len(n, sel, m);
    if m == 0 {
        lemma_pack_xor(lv, o, hs, zero_state(n), zero_state(n), hs.len());
    } else {
        lemma_sel_is_image(lv, o, hs, n, sel, (m - 1) as nat);
        lemma_state_of_sel_len(n, sel, (m - 1) as nat);
        let g = gens.subrange(0, m as int);
        let s = sel.subrange(0, m as int);
        assert(g.drop_last() =~= gens.subrange(0, m - 1));
        assert(s.drop_last() =~= sel.subrange(0, m - 1));
        let prev = state_of_sel(n, sel, (m - 1) as nat);
        let u = unit_state(n, (m - 1) / 8, (1u8 << (((m - 1) % 8) as u8)) as u8);
        lemma_pack_xor(lv, o, hs, prev, u, hs.len());
        lemma_xor_u64_facts(pack(lv, o, hs, prev, hs.len()), 0, 0, 0);
    }
}

/// Every element of the span of the generators is the image of a state.
proof fn lemma_span_is_image(lv: LayerView, o: int, hs: Seq<usize>, n: nat, y: u64)
    requires
        heads_sources_below(lv, o, hs, n),
        in_span(joint_generators(lv, o, hs, n), y),
    ensures
        exists|x: Seq<u8>| x.len() == n && pack(lv, o, hs, x, hs.len()) == y,
{
    let gens = joint_generators(lv, o, hs, n);
    let sel = choose|sel: Seq<bool>| sel.len() == gens.len() && #[trigger] xor_sel(gens, sel) == y;
    lemma_sel_is_image(lv, o, hs, n, sel, n * 8);
    assert(gens.subrange(0, (n * 8) as int) =~= gens);
    assert(sel.subrange(0, (n * 8) as int) =~= sel);
    lemma_state_of_sel_len(n, sel, n * 8);
}

proof fn lemma_byte_bits(v: u8)
    ensures
        v == (v & 1u8) ^ (v & 2u8) ^ (v & 4u8) ^ (v & 8u8) ^ (v & 16u8) ^ (v & 32u8) ^ (v & 64u8) ^ (v & 128u8),
        forall|b: u8| #![trigger (v & (1u8 << b))] b < 8 ==> (v & (1u8 << b)) == 0 || (v & (1u8 << b)) == (1u8 << b),
{
    assert(v == (v & 1u8) ^ (v & 2u8) ^ (v & 4u8) ^ (v & 8u8) ^ (v & 16u8) ^ (v & 32u8) ^ (v & 64u8) ^ (v
        & 128u8)) by (bit_vector);
    assert forall|b: u8| #![trigger (v & (1u8 << b))] b < 8 implies (v & (1u8 << b)) == 0 || (v & (1u8 << b))
        == (1u8 << b) by {
        assert(b < 8 ==> (v & (1u8 << b)) == 0 || (v & (1u8 << b)) == (1u8 << b)) by (bit_vector);
    }
}

/// The image of a single-bit unit state lies in the span of the generators.
proof fn lemma_unit_bit_in_span(lv: LayerView, o: int, hs: Seq<usize>, n: nat, p: int, v: u8, b: u8)
    requires
        heads_sources_below(lv, o, hs, n),
        0 <= p < n,
        b < 8,
        v == 0 || v == (1u8 << b),
    ensures
        in_span(joint_generators(lv, o, hs, n), pack(lv, o, hs, unit_state(n, p, v), hs.len())),
{
    let gens = joint_generators(lv, o, hs, n);
    if v == 0 {
        assert(unit_state(n, p, 0) =~= zero_state(n));
        lemma_pack_xor(lv, o, hs, zero_state(n), zero_state(n), hs.len());
        lemma_span_zero(gens);
    } else {
        let i = p * 8 + b;
        assert(i / 8 == p && i % 8 == b as int) by (nonlinear_arith)
            requires
                i == p * 8 + b,
                0 <= b < 8,
                0 <= p,
        ;
        assert(0 <= i < n * 8) by (nonlinear_arith)
            requires
                i == p * 8 + b,
                0 <= b < 8,
                0 <= p < n,
        ;
        assert(gens[i] == pack(lv, o, hs, unit_state(n, p, v), hs.len()));
        lemma_span_member(gens, i);
    }
}

/// The bits of `v` below bit `j`.
pub open spec fn bits_below(v: u8, j: nat) -> u8
    decreases j,
{
    if j == 0 {
        0
    } else {
        bits_below(v, (j - 1) as nat) ^ (v & (1u8 << ((j - 1) as u8)))
    }
}

proof fn lemma_bits_below_all(v: u8)
    ensures
        bits_below(v, 8) == v,
{
    reveal_with_fuel(bits_below, 9);
    lemma_byte_bits(v);
    assert(1u8 << 0u8 == 1u8 && 1u8 << 1u8 == 2u8 && 1u8 << 2u8 == 4u8 && 1u8 << 3u8 == 8u8 && 1u8 << 4u8
        == 16u8 && 1u8 << 5u8 == 32u8 && 1u8 << 6u8 == 64u8 && 1u8 << 7u8 == 128u8) by (bit_vector);
    assert(0u8 ^ (v & 1u8) == (v & 1u8)) by (bit_vector);
}

proof fn lemma_unit_bits_in_span(lv: LayerView, o: int, hs: Seq<usize>, n: nat, p: int, v: u8, j: nat)
    requires
        heads_sources_below(lv, o, hs, n),
        0 <= p < n,
        j <= 8,
    ensures
        in_span(joint_generators(lv, o, hs, n), pack(lv, o, hs, unit_state(n, p, bits_below(v, j)), hs.len())),
    decreases j,
{
    let gens = joint_generators(lv, o, hs, n);
    if j == 0 {
        assert(unit_state(n, p, 0) =~= zero_state(n));
        lemma_pack_xor(lv, o, hs, zero_state(n), zero_state(n), hs.len());
        lemma_span_zero(gens);
    } else {
        lemma_unit_bits_in_span(lv, o, hs, n, p, v, (j - 1) as nat);
        let acc = bits_below(v, (j - 1) as nat);
        let b = (j - 1) as u8;
        let part = v & (1u8 << b);
        lemma_byte_bits(v);
        assert(part == 0 || part == (1u8 << b));
        lemma_unit_bit_in_span(lv, o, hs, n, p, part, b);
        lemma_xor_u8_facts(0, 0, 0, 0);
        assert(unit_state(n, p, acc ^ part) =~= xor_state(unit_state(n, p, acc), unit_state(n, p, part)));
        lemma_pack_xor(lv, o, hs, unit_state(n, p, acc), unit_state(n, p, part), hs.len());
        lemma_span_xor(
            gens,
            pack(lv, o, hs, unit_state(n, p, acc), hs.len()),
            pack(lv, o, hs, unit_state(n, p, part), hs.len()),
        );
    }
}

proof fn lemma_unit_in_span(lv: LayerView, o: int, hs: Seq<usize>, n: nat, p: int, v: u8)
    requires
        heads_sources_below(lv, o, hs, n),
        0 <= p < n,
    ensures
        in_span(joint_generators(lv, o, hs, n), pack(lv, o, hs, unit_state(n, p, v), hs.len())),
{
    lemma_unit_bits_in_span(lv, o, hs, n, p, v, 8);
    lemma_bits_below_all(v);
}

proof fn lemma_prefix_state_in_span(lv: LayerView, o: int, hs: Seq<usize>, x: Seq<u8>, m: nat)
    requires
        heads_sources_below(lv, o, hs, x.len()),
        m <= x.len(),
    ensures
        in_span(
            joint_generators(lv, o, hs, x.len()),
            pack(lv, o, hs, Seq::new(x.len(), |i: int| if i < m { x[i] } else { 0u8 }), hs.len()),
        ),
    decreases m,
{
    let n = x.len();
    let gens = joint_generators(lv, o, hs, n);
    let cur = Seq::new(n, |i: int| if i < m { x[i] } else { 0u8 });
    if m == 0 {
        assert(cur =~= zero_state(n));
        lemma_pack_xor(lv, o, hs, zero_state(n), zero_state(n), hs.len());
        lemma_span_zero(gens);
    } else {
        lemma_prefix_state_in_span(lv, o, hs, x, (m - 1) as nat);
        let prev = Seq::new(n, |i: int| if i < m - 1 { x[i] } else { 0u8 });
        let u = unit_state(n, m - 1, x[m - 1]);
        assert(cur =~= xor_state(prev, u)) by {
            assert forall|i: int| 0 <= i < n implies cur[i] == xor_state(prev, u)[i] by {
                lemma_xor_u8_facts(x[i], 0, 0, 0);
                lemma_xor_u8_facts(0, 0, 0, 0);
            }
        }
        lemma_pack_xor(lv, o, hs, prev, u, hs.len());
        lemma_unit_in_span(lv, o, hs, n, m - 1, x[m - 1]);
        lemma_span_xor(gens, pack(lv, o, hs, prev, hs.len()), pack(lv, o, hs, u, hs.len()));
    }
}

/// The image of every state lies in the span of the generators.
proof fn lemma_image_in_span(lv: LayerView, o: int, hs: Seq<usize>, x: Seq<u8>)
    requires
        heads_sources_below(lv, o, hs, x.len()),
    ensures
        in_span(joint_generators(lv, o, hs, x.len()), pack(lv, o, hs, x, hs.len())),
{
    lemma_prefix_state_in_span(lv, o, hs, x, x.len());
    assert(Seq::new(x.len(), |i: int| if i < x.len() { x[i] } else { 0u8 }) =~= x);
}

/// Joint cancellation is realisable exactly when some vector of the span
/// of the basis vectors cancels.
pub proof fn lemma_realizable_iff_span(lv: LayerView, o: int, hs: Seq<usize>, cs: Seq<u8>, sbox: Seq<u8>, n: nat)
    requires
        heads_sources_below(lv, o, hs, n),
        hs.len() <= 8,
    ensures
        jointly_realizable(lv, o, hs, cs, sbox, n) <==> exists|y: u64|
            in_span(basis_vectors(basis_of(joint_generators(lv, o, hs, n))), y) && #[trigger] joint_diff_packed(
                cs,
                sbox,
                y,
                hs.len(),
            ) == 0,
{
    let gens = joint_generators(lv, o, hs, n);
    let b = basis_of(gens);
    let vs = basis_vectors(b);
    lemma_basis_of(gens);
    lemma_basis_vectors(b);
    lemma_generates_trans(gens, b, vs);
    lemma_generates_trans(vs, b, gens);
    if jointly_realizable(lv, o, hs, cs, sbox, n) {
        let x = choose|x: Seq<u8>| x.len() == n && #[trigger] joint_diff(lv, o, hs, cs, sbox, x, hs.len()) == 0;
        let y = pack(lv, o, hs, x, hs.len());
        lemma_joint_diff_packed(lv, o, hs, cs, sbox, x, hs.len());
        lemma_image_in_span(lv, o, hs, x);
        lemma_span_subset(gens, vs, y);
        assert(in_span(vs, y) && joint_diff_packed(cs, sbox, y, hs.len()) == 0);
    }
    if exists|y: u64| in_span(vs, y) && #[trigger] joint_diff_packed(cs, sbox, y, hs.len()) == 0 {
        let y = choose|y: u64| in_span(vs, y) && #[trigger] joint_diff_packed(cs, sbox, y, hs.len()) == 0;
        lemma_span_subset(vs, gens, y);
        lemma_span_is_image(lv, o, hs, n, y);
        let x = choose|x: Seq<u8>| x.len() == n && pack(lv, o, hs, x, hs.len()) == y;
        lemma_joint_diff_packed(lv, o, hs, cs, sbox, x, hs.len());
        assert(joint_diff(lv, o, hs, cs, sbox, x, hs.len()) == 0);
    }
}

} // verus!

verus! {

// ============================================================
// Exact joint-cancellation check
// ============================================================

/// Largest echelon-basis rank whose span is enumerated (2^20 checks).
pub const EXACT_JOINT_RANK_CAP: usize = 20;

/// `None` when more than 8 heads are active (their accumulators do not
/// fit in 64 bits) or the image of the joint map has rank above
/// `EXACT_JOINT_RANK_CAP`; otherwise whether a single base state makes
/// the active heads' contributions cancel.
pub open spec fn joint_outcome(lv: LayerView, o: int, hs: Seq<usize>, cs: Seq<u8>, sbox: Seq<u8>, n: nat) -> Option<bool> {
    if hs.len() > 8 {
        None
    } else if basis_vectors(basis_of(joint_generators(lv, o, hs, n))).len() > EXACT_JOINT_RANK_CAP {
        None
    } else {
        Some(jointly_realizable(lv, o, hs, cs, sbox, n))
    }
}

/// `joint_diff_packed` computed.
fn joint_diff_of(cs: &Vec<u8>, sbox: &Vec<u8>, y: u64) -> (d: u8)
    requires
        cs@.len() <= 8,
        sbox@.len() >= 256,
    ensures
        d == joint_diff_packed(cs@, sbox@, y, cs@.len()),
{
    let mut total: u8 = 0;
    let mut h: usize = 0;
    while h < cs.len()
        invariant
            h <= cs@.len(),
            cs@.len() <= 8,
            sbox@.len() >= 256,
            total == joint_diff_packed(cs@, sbox@, y, h as nat),
        decreases cs@.len() - h,
    {
        let a = ((y >> (8 * h as u64)) & 0xff) as u8;
        total = total ^ (sbox[a as usize] ^ sbox[(a ^ cs[h]) as usize]);
        h += 1;
    }
    total
}

/// Whether some XOR of a subset of the first `idx` vectors, XOR-ed onto
/// `acc`, cancels.
fn search_span(vectors: &Vec<u64>, idx: usize, acc: u64, cs: &Vec<u8>, sbox: &Vec<u8>) -> (found: bool)
    requires
        idx <= vectors@.len(),
        cs@.len() <= 8,
        sbox@.len() >= 256,
    ensures
        found == exists|sel: Seq<bool>|
            sel.len() == idx && #[trigger] joint_diff_packed(
                cs@,
                sbox@,
                acc ^ xor_sel(vectors@.subrange(0, idx as int), sel),
                cs@.len(),
            ) == 0,
    decreases idx,
{
    let ghost vs = vectors@.subrange(0, idx as int);
    if idx == 0 {
        let found = joint_diff_of(cs, sbox, acc) == 0;
        proof {
            lemma_xor_u64_facts(acc, 0, 0, 0);
            let empty = Seq::<bool>::empty();
            assert(xor_sel(vs, empty) == 0);
            if !found {
                assert forall|sel: Seq<bool>| sel.len() == 0 implies #[trigger] joint_diff_packed(
                    cs@,
                    sbox@,
                    acc ^ xor_sel(vs, sel),
                    cs@.len(),
                ) != 0 by {
                    assert(xor_sel(vs, sel) == 0);
                }
            } else {
                assert(joint_diff_packed(cs@, sbox@, acc ^ xor_sel(vs, empty), cs@.len()) == 0);
            }
        }
        found
    } else {
        let v = vectors[idx - 1];
        let ghost prev = vectors@.subrange(0, idx - 1);
        proof {
            assert(vs.drop_last() =~= prev);
            assert(vs.last() == v);
        }
        let without = search_span(vectors, idx - 1, acc, cs, sbox);
        let with = search_span(vectors, idx - 1, acc ^ v, cs, sbox);
        proof {
            if without {
                let s = choose|s: Seq<bool>|
                    s.len() == idx - 1 && #[trigger] joint_diff_packed(cs@, sbox@, acc ^ xor_sel(prev, s), cs@.len()) == 0;
                let sel = s.push(false);
                assert(sel.drop_last() =~= s);
                lemma_xor_u64_facts(xor_sel(prev, s), 0, 0, 0);
                assert(xor_sel(vs, sel) == xor_sel(prev, s));
                assert(joint_diff_packed(cs@, sbox@, acc ^ xor_sel(vs, sel), cs@.len()) == 0);
            }
            if with {
                let s = choose|s: Seq<bool>|
                    s.len() == idx - 1 && #[trigger] joint_diff_packed(cs@, sbox@, (acc ^ v) ^ xor_sel(prev, s), cs@.len()) == 0;
                let sel = s.push(true);
                assert(sel.drop_last() =~= s);
                assert(xor_sel(vs, sel) == xor_sel(prev, s) ^ v);
                lemma_xor_u64_facts(acc, v, xor_sel(prev, s), 0);
                lemma_xor_u64_facts(xor_sel(prev, s), v, 0, 0);
                assert(acc ^ (xor_sel(prev, s) ^ v) == (acc ^ v) ^ xor_sel(prev, s));
                assert(joint_diff_packed(cs@, sbox@, acc ^ xor_sel(vs, sel), cs@.len()) == 0);
            }
            if !without && !with {
                assert forall|sel: Seq<bool>| sel.len() == idx implies #[trigger] joint_diff_packed(
                    cs@,
                    sbox@,
                    acc ^ xor_sel(vs, sel),
                    cs@.len(),
                ) != 0 by {
                    let s = sel.drop_last();
                    if sel.last() {
                        assert(xor_sel(vs, sel) == xor_sel(prev, s) ^ v);
                        lemma_xor_u64_facts(acc, v, xor_sel(prev, s), 0);
                        lemma_xor_u64_facts(xor_sel(prev, s), v, 0, 0);
                        assert(joint_diff_packed(cs@, sbox@, (acc ^ v) ^ xor_sel(prev, s), cs@.len()) != 0);
                    } else {
                        lemma_xor_u64_facts(xor_sel(prev, s), 0, 0, 0);
                        assert(xor_sel(vs, sel) == xor_sel(prev, s));
                        assert(joint_diff_packed(cs@, sbox@, acc ^ xor_sel(prev, s), cs@.len()) != 0);
                    }
                }
            }
        }
        without || with
    }
}

} // verus!

verus! {

/// Node `o` of every listed head exists in `layer`.
pub open spec fn heads_in_layer(lv: LayerView, o: int, hs: Seq<usize>) -> bool {
    forall|j: int| 0 <= j < hs.len() ==> hs[j] < lv.len() && o < (#[trigger] lv[hs[j] as int]).len()
}

/// The image of the unit state holding `1 << bit` at `pos`.
fn joint_generator(
    layer: &Vec<Vec<(Vec<usize>, Vec<u8>)>>,
    o: usize,
    hs: &Vec<usize>,
    n: usize,
    pos: usize,
    bit: usize,
) -> (g: u64)
    requires
        hs@.len() <= 8,
        pos < n,
        bit < 8,
        heads_in_layer(layer.deep_view(), o as int, hs@),
        heads_sources_below(layer.deep_view(), o as int, hs@, n as nat),
    ensures
        g == pack(layer.deep_view(), o as int, hs@, unit_state(n as nat, pos as int, (1u8 << (bit as u8)) as u8), hs@.len()),
{
    let ghost lv = layer.deep_view();
    let one: u8 = 1u8 << (bit as u8);
    let mut unit: Vec<u8> = Vec::new();
    let mut i: usize = 0;
    while i < n
        invariant
            i <= n,
            pos < n,
            unit@ == unit_state(n as nat, pos as int, one).subrange(0, i as int),
        decreases n - i,
    {
        if i == pos {
            unit.push(one);
        } else {
            unit.push(0);
        }
        i += 1;
        proof {
            assert(unit@ =~= unit_state(n as nat, pos as int, one).subrange(0, i as int));
        }
    }
    proof {
        assert(unit@ =~= unit_state(n as nat, pos as int, one));
    }
    let mut packed: u64 = 0;
    let mut j: usize = 0;
    while j < hs.len()
        invariant
            j <= hs@.len(),
            hs@.len() <= 8,
            lv == layer.deep_view(),
            unit@ == unit_state(n as nat, pos as int, one),
            heads_in_layer(lv, o as int, hs@),
            heads_sources_below(lv, o as int, hs@, n as nat),
            packed == pack(lv, o as int, hs@, unit@, j as nat),
        decreases hs@.len() - j,
    {
        let h = hs[j];
        assert(o < lv[hs@[j as int] as int].len());
        assert(hs@[j as int] < lv.len());
        assert(layer@[h as int].deep_view() == lv[h as int]);
        let node = &layer[h][o];
        proof {
            assert(node.0.deep_view() == lv[h as int][o as int].0);
            assert(node.0@ =~= node.0.deep_view());
            assert(node.1@ =~= node.1.deep_view());
            assert forall|k: int| 0 <= k < node_len((node.0@, node.1@)) implies #[trigger] node.0@[k] < unit@.len() by {
                assert(lv[hs[j as int] as int][o as int].0[k] < n);
            }
        }
        let a = node_accumulate(&unit, &node.0, &node.1);
        packed = packed ^ ((a as u64) << ((8 * j) as u64));
        j += 1;
    }
    packed
}

/// Position `p` is a source of node `o` of some listed head.
pub open spec fn position_used(lv: LayerView, o: int, hs: Seq<usize>, p: int) -> bool {
    exists|j: int, k: int|
        0 <= j < hs.len() && 0 <= k < node_len(lv[hs[j] as int][o]) && #[trigger] lv[hs[j] as int][o].0[k] == p
}

proof fn lemma_node_acc_agree(s: Seq<u8>, r: Seq<u8>, src: Seq<usize>, w: Seq<u8>, k: nat)
    requires
        forall|j: int| 0 <= j < k ==> s[#[trigger] src[j] as int] == r[src[j] as int],
    ensures
        node_acc(s, src, w, k) == node_acc(r, src, w, k),
    decreases k,
{
    if k > 0 {
        lemma_node_acc_agree(s, r, src, w, (k - 1) as nat);
    }
}

/// The unit state at an unused position maps to zero.
proof fn lemma_unused_generator(lv: LayerView, o: int, hs: Seq<usize>, n: nat, p: int, v: u8, k: nat)
    requires
        0 <= p < n,
        k <= hs.len(),
        heads_sources_below(lv, o, hs, n),
        !position_used(lv, o, hs, p),
    ensures
        pack(lv, o, hs, unit_state(n, p, v), k) == 0,
    decreases k,
{
    if k > 0 {
        lemma_unused_generator(lv, o, hs, n, p, v, (k - 1) as nat);
        let node = lv[hs[k - 1] as int][o];
        let u = unit_state(n, p, v);
        let z = zero_state(n);
        assert forall|j: int| 0 <= j < node_len(node) implies u[#[trigger] node.0[j] as int] == z[node.0[j] as int] by {
            assert(node.0[j] < n);
            if node.0[j] as int == p {
                assert(position_used(lv, o, hs, p));
            }
        }
        lemma_node_acc_agree(u, z, node.0, node.1, node_len(node));
        assert forall|kk: int| 0 <= kk < node_len(node) implies #[trigger] node.0[kk] < n by {
            assert(lv[hs[k - 1] as int][o].0[kk] < n);
        }
        lemma_node_acc_zero(n, node.0, node.1, node_len(node));
        lemma_echelon_bits(0, 0, 0, (8 * (k - 1)) as u64);
        crate::span::lemma_xor_u64_facts(0, 0, 0, 0);
    }
}

/// Inserting the generators of an unused position changes no basis.
proof fn lemma_skip_unused(lv: LayerView, o: int, hs: Seq<usize>, n: nat, p: int, t: nat)
    requires
        0 <= p < n,
        t <= 8,
        hs.len() <= 8,
        heads_sources_below(lv, o, hs, n),
        !position_used(lv, o, hs, p),
    ensures
        basis_of(joint_generators(lv, o, hs, n).subrange(0, p * 8 + t)) == basis_of(
            joint_generators(lv, o, hs, n).subrange(0, p * 8),
        ),
    decreases t,
{
    if t > 0 {
        lemma_skip_unused(lv, o, hs, n, p, (t - 1) as nat);
        let gens = joint_generators(lv, o, hs, n);
        let m = p * 8 + t - 1;
        assert(m / 8 == p && m % 8 == t - 1) by (nonlinear_arith)
            requires
                m == p * 8 + t - 1,
                1 <= t <= 8,
        ;
        assert(m < n * 8) by (nonlinear_arith)
            requires
                m == p * 8 + t - 1,
                t <= 8,
                p < n,
        ;
        lemma_unused_generator(lv, o, hs, n, p, (1u8 << ((m % 8) as u8)) as u8, hs.len());
        assert(gens[m] == 0);
        let next = gens.subrange(0, m + 1);
        assert(next.drop_last() =~= gens.subrange(0, m));
        lemma_basis_insert_zero(basis_of(gens.subrange(0, m)));
    }
}

/// Whether `pos` is a source of node `o` of some listed head.
fn position_is_used(layer: &Vec<Vec<(Vec<usize>, Vec<u8>)>>, o: usize, hs: &Vec<usize>, pos: usize) -> (r: bool)
    requires
        heads_in_layer(layer.deep_view(), o as int, hs@),
    ensures
        r == position_used(layer.deep_view(), o as int, hs@, pos as int),
{
    let ghost lv = layer.deep_view();
    let mut j: usize = 0;
    while j < hs.len()
        invariant
            j <= hs@.len(),
            lv == layer.deep_view(),
            heads_in_layer(lv, o as int, hs@),
            forall|jj: int, k: int|
                0 <= jj < j && 0 <= k < node_len(lv[hs@[jj] as int][o as int]) ==> #[trigger] lv[hs@[jj] as int][o as int].0[k]
                    != pos,
        decreases hs@.len() - j,
    {
        let h = hs[j];
        assert(o < lv[hs@[j as int] as int].len());
        assert(layer@[h as int].deep_view() == lv[h as int]);
        let node = &layer[h][o];
        proof {
            assert(node.0.deep_view() == lv[h as int][o as int].0);
            assert(node.0@ =~= node.0.deep_view());
            assert(node.1@ =~= node.1.deep_view());
        }
        let m = if node.0.len() <= node.1.len() {
            node.0.len()
        } else {
            node.1.len()
        };
        let mut k: usize = 0;
        while k < m
            invariant
                k <= m,
                j < hs@.len(),
                lv == layer.deep_view(),
                m == node_len(lv[hs@[j as int] as int][o as int]),
                m <= node.0@.len(),
                node.0@ == lv[hs@[j as int] as int][o as int].0,
                forall|kk: int| 0 <= kk < k ==> node.0@[kk] != pos,
                forall|jj: int, k2: int|
                    0 <= jj < j && 0 <= k2 < node_len(lv[hs@[jj] as int][o as int]) ==> #[trigger] lv[hs@[jj] as int][o as int].0[k2]
                        != pos,
            decreases m - k,
        {
            if node.0[k] == pos {
                proof {
                    let jj = j as int;
                    let kk = k as int;
                    assert(0 <= jj < hs@.len() && 0 <= kk < node_len(lv[hs@[jj] as int][o as int])
                        && lv[hs@[jj] as int][o as int].0[kk] == pos as int);
                    assert(position_used(lv, o as int, hs@, pos as int));
                }
                return true;
            }
            k += 1;
        }
        j += 1;
    }
    false
}

/// Whether a single base state makes the active heads' output
/// differences cancel at node `o` (see `joint_outcome`).
fn heads_can_jointly_cancel(
    layer: &Vec<Vec<(Vec<usize>, Vec<u8>)>>,
    o: usize,
    hs: &Vec<usize>,
    cs: &Vec<u8>,
    sbox: &Vec<u8>,
    n: usize,
) -> (r: Option<bool>)
    requires
        cs@.len() == hs@.len(),
        sbox@.len() >= 256,
        heads_in_layer(layer.deep_view(), o as int, hs@),
        heads_sources_below(layer.deep_view(), o as int, hs@, n as nat),
    ensures
        r == joint_outcome(layer.deep_view(), o as int, hs@, cs@, sbox@, n as nat),
{
    if hs.len() > 8 {
        return None;
    }
    let ghost lv = layer.deep_view();
    let ghost gens = joint_generators(lv, o as int, hs@, n as nat);
    let mut xb = XorBasis64::new();
    proof {
        assert(gens.subrange(0, 0) =~= Seq::<u64>::empty());
    }
    let mut pos: usize = 0;
    while pos < n
        invariant
            pos <= n,
            hs@.len() <= 8,
            lv == layer.deep_view(),
            gens == joint_generators(lv, o as int, hs@, n as nat),
            heads_in_layer(lv, o as int, hs@),
            heads_sources_below(lv, o as int, hs@, n as nat),
            xb@ == basis_of(gens.subrange(0, (pos * 8) as int)),
        decreases n - pos,
    {
        if !position_is_used(layer, o, hs, pos) {
            // An input byte no active head reads adds nothing to the image.
            proof {
                lemma_skip_unused(lv, o as int, hs@, n as nat, pos as int, 8);
            }
            pos += 1;
            continue;
        }
        let mut bit: usize = 0;
        while bit < 8
            invariant
                bit <= 8,
                pos < n,
                hs@.len() <= 8,
                lv == layer.deep_view(),
                gens == joint_generators(lv, o as int, hs@, n as nat),
                heads_in_layer(lv, o as int, hs@),
                heads_sources_below(lv, o as int, hs@, n as nat),
                xb@ == basis_of(gens.subrange(0, (pos * 8 + bit) as int)),
            decreases 8 - bit,
        {
            let g = joint_generator(layer, o, hs, n, pos, bit);
            let ghost m = (pos * 8 + bit) as int;
            proof {
                assert(m / 8 == pos as int && m % 8 == bit as int) by (nonlinear_arith)
                    requires
                        m == pos * 8 + bit,
                        bit < 8,
                ;
                assert(m < n * 8) by (nonlinear_arith)
                    requires
                        m == pos * 8 + bit,
                        bit < 8,
                        pos < n,
                ;
                assert(g == gens[m]);
                lemma_basis_of(gens.subrange(0, m));
                let next = gens.subrange(0, m + 1);
                assert(next.drop_last() =~= gens.subrange(0, m));
                assert(next.last() == g);
            }
            xb.insert(g);
            bit += 1;
        }
        pos += 1;
    }
    proof {
        assert(gens.subrange(0, (n * 8) as int) =~= gens);
        lemma_basis_of(gens);
    }
    let rank = xb.rank();
    if rank > EXACT_JOINT_RANK_CAP {
        return None;
    }
    let vectors = xb.vectors();
    let found = search_span(&vectors, rank, 0, cs, sbox);
    proof {
        let vs = vectors@;
        assert(vs.subrange(0, rank as int) =~= vs);
        lemma_realizable_iff_span(lv, o as int, hs@, cs@, sbox@, n as nat);
        if found {
            let sel = choose|sel: Seq<bool>|
                sel.len() == rank && #[trigger] joint_diff_packed(cs@, sbox@, 0u64 ^ xor_sel(vs.subrange(0, rank as int), sel), cs@.len()) == 0;
            let y = xor_sel(vs, sel);
            lemma_xor_u64_facts(y, 0, 0, 0);
            assert(in_span(vs, y));
            assert(joint_diff_packed(cs@, sbox@, y, hs@.len()) == 0);
        } else {
            assert forall|y: u64| in_span(vs, y) implies #[trigger] joint_diff_packed(cs@, sbox@, y, hs@.len()) != 0 by {
                let sel = choose|sel: Seq<bool>| sel.len() == vs.len() && #[trigger] xor_sel(vs, sel) == y;
                lemma_xor_u64_facts(y, 0, 0, 0);
                assert(joint_diff_packed(cs@, sbox@, 0u64 ^ xor_sel(vs.subrange(0, rank as int), sel), cs@.len()) != 0);
            }
        }
    }
    Some(found)
}

} // verus!

verus! {

// ============================================================
// DDT compatibility (a necessary condition for cancellation)
// ============================================================

/// The XOR sums reachable by picking one value from each of the first `k`
/// rows.
pub open spec fn reachable_xor(rows: Seq<Seq<u8>>, k: nat) -> Set<u8>
    decreases k,
{
    if k == 0 {
        set![0u8]
    } else {
        Set::new(
            |v: u8|
                exists|u: u8, j: int|
                    #![trigger reachable_xor(rows, (k - 1) as nat).contains(u), rows[k - 1][j]]
                    reachable_xor(rows, (k - 1) as nat).contains(u) && 0 <= j < rows[k - 1].len() && v == u
                        ^ rows[k - 1][j],
        )
    }
}

/// Some choice of one value from each row XORs to zero (ignoring whether
/// one base state could realise the choices together).
pub open spec fn rows_can_cancel(rows: Seq<Seq<u8>>) -> bool {
    reachable_xor(rows, rows.len()).contains(0u8)
}

/// Necessary-but-not-sufficient check: can some combination of one value
/// from each row XOR to zero? Computed with a reachable-value table.
fn ddt_rows_can_cancel(rows: &Vec<Vec<u8>>) -> (r: bool)
    ensures
        r == rows_can_cancel(rows.deep_view()),
{
    let ghost rv = rows.deep_view();
    let mut reachable: Vec<bool> = Vec::new();
    let mut w: usize = 0;
    while w < 256
        invariant
            w <= 256,
            reachable@.len() == w,
            forall|v: int| 0 <= v < w ==> (#[trigger] reachable@[v]) == (v == 0),
        decreases 256 - w,
    {
        reachable.push(w == 0);
        w += 1;
    }
    proof {
        assert forall|v: int| 0 <= v < 256 implies (#[trigger] reachable@[v]) == reachable_xor(rv, 0).contains(v as u8) by {
        }
    }
    let mut k: usize = 0;
    while k < rows.len()
        invariant
            k <= rows@.len(),
            rv == rows.deep_view(),
            reachable@.len() == 256,
            forall|v: int| 0 <= v < 256 ==> (#[trigger] reachable@[v]) == reachable_xor(rv, k as nat).contains(v as u8),
        decreases rows@.len() - k,
    {
        let row = &rows[k];
        assert(row@ =~= rv[k as int]);
        let ghost reach = reachable_xor(rv, k as nat);
        let mut next: Vec<bool> = Vec::new();
        let mut w: usize = 0;
        while w < 256
            invariant
                w <= 256,
                next@.len() == w,
                forall|v: int| 0 <= v < w ==> !(#[trigger] next@[v]),
            decreases 256 - w,
        {
            next.push(false);
            w += 1;
        }
        let mut v: usize = 0;
        while v < 256
            invariant
                v <= 256,
                next@.len() == 256,
                reachable@.len() == 256,
                row@ == rv[k as int],
                forall|x: int| 0 <= x < 256 ==> (#[trigger] reachable@[x]) == reach.contains(x as u8),
                forall|x: int|
                    0 <= x < 256 ==> ((#[trigger] next@[x]) <==> exists|u: u8, j: int|
                        #![trigger reach.contains(u), row@[j]]
                        u < v && reach.contains(u) && 0 <= j < row@.len() && x == (u ^ row@[j]) as int),
            decreases 256 - v,
        {
            if reachable[v] {
                let mut j: usize = 0;
                while j < row.len()
                    invariant
                        j <= row@.len(),
                        v < 256,
                        next@.len() == 256,
                        reachable@.len() == 256,
                        reachable@[v as int],
                        forall|x: int| 0 <= x < 256 ==> (#[trigger] reachable@[x]) == reach.contains(x as u8),
                        forall|x: int|
                            0 <= x < 256 ==> ((#[trigger] next@[x]) <==> (exists|u: u8, jj: int|
                                #![trigger reach.contains(u), row@[jj]]
                                u < v && reach.contains(u) && 0 <= jj < row@.len() && x == (u ^ row@[jj]) as int)
                                || (exists|jj: int| 0 <= jj < j && x == ((v as u8) ^ #[trigger] row@[jj]) as int)),
                    decreases row@.len() - j,
                {
                    let r = row[j];
                    let vv = v as u8;
                    let target = (vv ^ r) as usize;
                    next.set(target, true);
                    j += 1;
                    proof {
                        assert forall|x: int| 0 <= x < 256 implies ((#[trigger] next@[x]) <==> (exists|u: u8, jj: int|
                            #![trigger reach.contains(u), row@[jj]]
                            u < v && reach.contains(u) && 0 <= jj < row@.len() && x == (u ^ row@[jj]) as int) || (
                        exists|jj: int| 0 <= jj < j && x == ((v as u8) ^ #[trigger] row@[jj]) as int)) by {
                            if x == target as int {
                                assert(x == ((v as u8) ^ row@[j - 1]) as int);
                            }
                        }
                    }
                }
                proof {
                    assert(reach.contains(v as u8));
                    assert forall|x: int| 0 <= x < 256 implies ((#[trigger] next@[x]) <==> exists|u: u8, jj: int|
                        #![trigger reach.contains(u), row@[jj]]
                        u < v + 1 && reach.contains(u) && 0 <= jj < row@.len() && x == (u ^ row@[jj]) as int) by {
                        if exists|jj: int| 0 <= jj < row@.len() && x == ((v as u8) ^ #[trigger] row@[jj]) as int {
                            let jj = choose|jj: int| 0 <= jj < row@.len() && x == ((v as u8) ^ #[trigger] row@[jj]) as int;
                            assert(reach.contains(v as u8) && row@[jj] == row@[jj]);
                        }
                        if exists|u: u8, jj: int|
                            #![trigger reach.contains(u), row@[jj]]
                            u < v + 1 && reach.contains(u) && 0 <= jj < row@.len() && x == (u ^ row@[jj]) as int {
                            let (u, jj) = choose|u: u8, jj: int|
                                #![trigger reach.contains(u), row@[jj]]
                                u < v + 1 && reach.contains(u) && 0 <= jj < row@.len() && x == (u ^ row@[jj]) as int;
                            if u == v {
                                assert(0 <= jj < row@.len() && x == ((v as u8) ^ row@[jj]) as int);
                            }
                        }
                    }
                }
            } else {
                proof {
                    assert(!reach.contains(v as u8));
                    assert forall|x: int| 0 <= x < 256 implies ((#[trigger] next@[x]) <==> exists|u: u8, jj: int|
                        #![trigger reach.contains(u), row@[jj]]
                        u < v + 1 && reach.contains(u) && 0 <= jj < row@.len() && x == (u ^ row@[jj]) as int) by {
                        if exists|u: u8, jj: int|
                            #![trigger reach.contains(u), row@[jj]]
                            u < v + 1 && reach.contains(u) && 0 <= jj < row@.len() && x == (u ^ row@[jj]) as int {
                            let (u, jj) = choose|u: u8, jj: int|
                                #![trigger reach.contains(u), row@[jj]]
                                u < v + 1 && reach.contains(u) && 0 <= jj < row@.len() && x == (u ^ row@[jj]) as int;
                            assert(u != v);
                        }
                    }
                }
            }
            v += 1;
        }
        proof {
            assert forall|x: int| 0 <= x < 256 implies (#[trigger] next@[x]) == reachable_xor(rv, (k + 1) as nat).contains(x as u8) by {
                let nr = reachable_xor(rv, (k + 1) as nat);
                if next@[x] {
                    let (u, jj) = choose|u: u8, jj: int|
                        #![trigger reach.contains(u), row@[jj]]
                        u < 256 && reach.contains(u) && 0 <= jj < row@.len() && x == (u ^ row@[jj]) as int;
                    assert((x as u8) == u ^ row@[jj]);
                    assert(nr.contains(x as u8));
                }
                if nr.contains(x as u8) {
                    let (u, jj) = choose|u: u8, jj: int|
                        #![trigger reach.contains(u), rv[k as int][jj]]
                        reach.contains(u) && 0 <= jj < rv[k as int].len() && (x as u8) == u ^ rv[k as int][jj];
                    assert(u < 256);
                    assert(x == (u ^ row@[jj]) as int);
                }
            }
        }
        reachable = next;
        k += 1;
    }
    reachable[0]
}

proof fn lemma_ddt_row_contains(sbox: Seq<u8>, c: u8, v: int, k: nat)
    requires
        0 <= v < k,
        k <= 256,
        ddt_reaches(sbox, c, v),
    ensures
        exists|t: int| 0 <= t < ddt_row_below(sbox, c, k).len() && #[trigger] ddt_row_below(sbox, c, k)[t] == v,
    decreases k,
{
    let prev = ddt_row_below(sbox, c, (k - 1) as nat);
    if v < k - 1 {
        lemma_ddt_row_contains(sbox, c, v, (k - 1) as nat);
        let t = choose|t: int| 0 <= t < prev.len() && #[trigger] prev[t] == v;
        if ddt_reaches(sbox, c, k - 1) {
            assert(ddt_row_below(sbox, c, k) == prev.push((k - 1) as u8));
            assert(ddt_row_below(sbox, c, k)[t] == v);
        } else {
            assert(ddt_row_below(sbox, c, k) == prev);
        }
    } else {
        assert(ddt_row_below(sbox, c, k) == prev.push((k - 1) as u8));
        let row = ddt_row_below(sbox, c, k);
        assert(row[prev.len() as int] == (k - 1) as u8);
    }
}

/// The DDT rows of the listed accumulator differences.
pub open spec fn ddt_rows_of(sbox: Seq<u8>, cs: Seq<u8>) -> Seq<Seq<u8>> {
    Seq::new(cs.len(), |j: int| ddt_row_below(sbox, cs[j], 256))
}

/// A cancellation that some single base state realises is, in particular,
/// a choice of one value per DDT row XOR-ing to zero: jointly realisable
/// implies DDT-compatible.
pub proof fn lemma_realizable_implies_compatible(lv: LayerView, o: int, hs: Seq<usize>, cs: Seq<u8>, sbox: Seq<u8>, n: nat)
    requires
        cs.len() == hs.len(),
        sbox.len() >= 256,
        jointly_realizable(lv, o, hs, cs, sbox, n),
    ensures
        rows_can_cancel(ddt_rows_of(sbox, cs)),
{
    let x = choose|x: Seq<u8>| x.len() == n && #[trigger] joint_diff(lv, o, hs, cs, sbox, x, hs.len()) == 0;
    lemma_joint_diff_reachable(lv, o, hs, cs, sbox, x, hs.len());
}

proof fn lemma_joint_diff_reachable(lv: LayerView, o: int, hs: Seq<usize>, cs: Seq<u8>, sbox: Seq<u8>, x: Seq<u8>, k: nat)
    requires
        cs.len() == hs.len(),
        sbox.len() >= 256,
        k <= hs.len(),
    ensures
        reachable_xor(ddt_rows_of(sbox, cs), k).contains(joint_diff(lv, o, hs, cs, sbox, x, k)),
    decreases k,
{
    let rows = ddt_rows_of(sbox, cs);
    if k > 0 {
        lemma_joint_diff_reachable(lv, o, hs, cs, sbox, x, (k - 1) as nat);
        let a = head_acc(lv, hs[k - 1] as int, o, x);
        let c = cs[k - 1];
        let d = sbox[a as int] ^ sbox[(a ^ c) as int];
        let aa = a as usize;
        let cc = c as usize;
        assert((aa ^ cc) == (a ^ c) as usize) by (bit_vector)
            requires
                aa == a as usize,
                cc == c as usize,
        ;
        assert(ddt_out(sbox, aa, cc) == d);
        assert(ddt_reaches(sbox, c, d as int));
        lemma_ddt_row_contains(sbox, c, d as int, 256);
        let row = rows[k - 1];
        let t = choose|t: int| 0 <= t < row.len() && #[trigger] row[t] == d as int;
        let u = joint_diff(lv, o, hs, cs, sbox, x, (k - 1) as nat);
        assert(reachable_xor(rows, (k - 1) as nat).contains(u) && 0 <= t < rows[k - 1].len());
        assert(joint_diff(lv, o, hs, cs, sbox, x, k) == u ^ rows[k - 1][t]);
    }
}

} // verus!

verus! {

// ============================================================
// Layer-0 classification
// ============================================================

/// Exact activity status of one layer-0 output byte for a fully specified
/// input difference.
#[derive(Debug, Clone, PartialEq, Eq)]
pub enum ExactActiveStatus {
    /// No head has a nonzero accumulator difference: inactive for every
    /// base state.
    ProvenInactive,
    /// Exactly one head has a nonzero accumulator difference: active for
    /// every base state.
    ProvenActive,
    /// Two or more heads have a nonzero accumulator difference.
    /// `ddt_compatible` is the necessary (not sufficient) DDT-row check;
    /// `jointly_realizable` the exact answer: `Some(false)` whenever the
    /// rows cannot cancel, and otherwise `None` when the joint rank exceeds
    /// the enumeration cap.
    Resolved { heads_active: usize, ddt_compatible: bool, jointly_realizable: Option<bool> },
}

/// The heads `< h` whose node-`o` accumulator difference is nonzero.
pub open spec fn active_heads(lv: LayerView, o: int, delta: Seq<u8>, h: nat) -> Seq<usize>
    decreases h,
{
    if h == 0 {
        Seq::empty()
    } else if head_acc(lv, h - 1, o, delta) != 0 {
        active_heads(lv, o, delta, (h - 1) as nat).push((h - 1) as usize)
    } else {
        active_heads(lv, o, delta, (h - 1) as nat)
    }
}

/// The accumulator differences of the listed heads.
pub open spec fn head_deltas(lv: LayerView, o: int, delta: Seq<u8>, hs: Seq<usize>) -> Seq<u8> {
    Seq::new(hs.len(), |j: int| head_acc(lv, hs[j] as int, o, delta))
}

/// The status of layer-0 output byte `o` under input difference `delta`.
pub open spec fn node_status(t: TransformerModel, delta: Seq<u8>, o: int) -> ExactActiveStatus {
    let lv = t.connections[0];
    let sbox = t.sboxes[0];
    let hs = active_heads(lv, o, delta, t.heads);
    let cs = head_deltas(lv, o, delta, hs);
    if hs.len() == 0 {
        ExactActiveStatus::ProvenInactive
    } else if hs.len() == 1 {
        ExactActiveStatus::ProvenActive
    } else {
        let ddt_compatible = rows_can_cancel(ddt_rows_of(sbox, cs));
        ExactActiveStatus::Resolved {
            heads_active: hs.len() as usize,
            ddt_compatible,
            jointly_realizable: if ddt_compatible {
                joint_outcome(lv, o, hs, cs, sbox, delta.len())
            } else {
                Some(false)
            },
        }
    }
}

/// Layer 0 of the transformer can be classified for input differences of
/// length `n`: a layer-0 table with `heads` heads of at least 8 nodes whose
/// sources index the difference, and a 256-entry layer-0 S-box.
pub open spec fn layer0_ok(t: TransformerModel, n: nat) -> bool {
    &&& t.connections.len() >= 1
    &&& t.sboxes.len() >= 1
    &&& t.sboxes[0].len() >= 256
    &&& t.heads <= t.connections[0].len()
    &&& forall|h: int|
        #![trigger t.connections[0][h]]
        0 <= h < t.heads ==> {
            &&& t.connections[0][h].len() >= 8
            &&& forall|o: int, k: int|
                0 <= o < 8 && 0 <= k < node_len(t.connections[0][h][o]) ==> #[trigger] t.connections[0][h][o].0[k] < n
        }
}

proof fn lemma_active_heads_below(lv: LayerView, o: int, delta: Seq<u8>, h: nat)
    ensures
        forall|j: int| 0 <= j < active_heads(lv, o, delta, h).len() ==> #[trigger] active_heads(lv, o, delta, h)[j] < h,
        active_heads(lv, o, delta, h).len() <= h,
    decreases h,
{
    if h > 0 {
        lemma_active_heads_below(lv, o, delta, (h - 1) as nat);
    }
}

/// Classifies one output byte.
fn classify_node(transformer: &GeneratedTransformer, delta: &Vec<u8>, o: usize) -> (s: ExactActiveStatus)
    requires
        layer0_ok(transformer@, delta@.len()),
        o < 8,
    ensures
        s == node_status(transformer@, delta@, o as int),
{
    let ghost t = transformer@;
    let layer = &transformer.connections[0];
    let sbox = &transformer.sboxes[0];
    let ghost lv = t.connections[0];
    proof {
        assert(layer.deep_view() == lv);
        assert(sbox@ =~= t.sboxes[0]);
    }
    let mut hs: Vec<usize> = Vec::new();
    let mut cs: Vec<u8> = Vec::new();
    let mut h: usize = 0;
    while h < transformer.heads
        invariant
            t == transformer@,
            layer0_ok(t, delta@.len()),
            lv == t.connections[0],
            layer.deep_view() == lv,
            o < 8,
            h <= t.heads,
            hs@ == active_heads(lv, o as int, delta@, h as nat),
            cs@ == head_deltas(lv, o as int, delta@, hs@),
        decreases t.heads - h,
    {
        assert(lv[h as int].len() >= 8);
        assert(layer@[h as int].deep_view() == lv[h as int]);
        let node = &layer[h][o];
        proof {
            assert(node.0.deep_view() == lv[h as int][o as int].0);
            assert(node.0@ =~= node.0.deep_view());
            assert(node.1@ =~= node.1.deep_view());
            assert forall|k: int| 0 <= k < node_len((node.0@, node.1@)) implies #[trigger] node.0@[k] < delta@.len() by {
                assert(t.connections[0][h as int][o as int].0[k] < delta@.len());
            }
        }
        let acc = node_accumulate(delta, &node.0, &node.1);
        if acc != 0 {
            hs.push(h);
            cs.push(acc);
        }
        h += 1;
        proof {
            assert(cs@ =~= head_deltas(lv, o as int, delta@, hs@));
        }
    }
    let k = hs.len();
    if k == 0 {
        ExactActiveStatus::ProvenInactive
    } else if k == 1 {
        ExactActiveStatus::ProvenActive
    } else {
        let mut rows: Vec<Vec<u8>> = Vec::new();
        let mut j: usize = 0;
        while j < k
            invariant
                j <= k,
                k == cs@.len(),
                sbox@.len() >= 256,
                rows@.len() == j,
                forall|i: int| 0 <= i < j ==> (#[trigger] rows@[i])@ == ddt_rows_of(sbox@, cs@)[i],
            decreases k - j,
        {
            let row = sbox_ddt_row(sbox.as_slice(), cs[j]);
            rows.push(row);
            j += 1;
        }
        proof {
            assert(rows.deep_view() =~= ddt_rows_of(sbox@, cs@)) by {
                assert forall|i: int| 0 <= i < k implies #[trigger] rows.deep_view()[i] == ddt_rows_of(sbox@, cs@)[i] by {
                    assert(rows@[i]@ =~= rows@[i].deep_view());
                }
            }
            lemma_active_heads_below(lv, o as int, delta@, t.heads);
            assert(heads_in_layer(lv, o as int, hs@)) by {
                assert forall|j: int| 0 <= j < hs@.len() implies hs@[j] < lv.len() && o < (#[trigger] lv[hs@[j] as int]).len() by {
                    assert(hs@[j] < t.heads);
                    assert(lv[hs@[j] as int].len() >= 8);
                }
            }
            assert(heads_sources_below(lv, o as int, hs@, delta@.len())) by {
                assert forall|j: int, kk: int|
                    0 <= j < hs@.len() && 0 <= kk < node_len(lv[hs@[j] as int][o as int]) implies #[trigger] lv[hs@[j] as int][o as int].0[kk] < delta@.len() by {
                    assert(hs@[j] < t.heads);
                    assert(t.connections[0][hs@[j] as int].len() >= 8);
                }
            }
        }
        let ddt_compatible = ddt_rows_can_cancel(&rows);
        // Rows that cannot cancel even independently cannot cancel for a
        // shared base state either (`lemma_realizable_implies_compatible`).
        let jointly_realizable = if ddt_compatible {
            heads_can_jointly_cancel(layer, o, &hs, &cs, sbox, delta.len())
        } else {
            Some(false)
        };
        ExactActiveStatus::Resolved { heads_active: k, ddt_compatible, jointly_realizable }
    }
}

/// Exact classification of every layer-0 output byte for a fully
/// specified input difference.
pub fn exact_layer0_active_status(transformer: &GeneratedTransformer, delta_in: &[u8]) -> (statuses: Vec<ExactActiveStatus>)
    requires
        layer0_ok(transformer@, delta_in@.len()),
    ensures
        statuses@ == Seq::new(8, |o: int| node_status(transformer@, delta_in@, o)),
{
    let mut delta: Vec<u8> = Vec::new();
    crate::kdf::append_bytes(&mut delta, delta_in);
    assert(delta@ =~= delta_in@);
    let mut statuses: Vec<ExactActiveStatus> = Vec::new();
    let mut o: usize = 0;
    while o < 8
        invariant
            o <= 8,
            delta@ == delta_in@,
            layer0_ok(transformer@, delta@.len()),
            statuses@ == Seq::new(8, |o: int| node_status(transformer@, delta_in@, o)).subrange(0, o as int),
        decreases 8 - o,
    {
        let s = classify_node(transformer, &delta, o);
        statuses.push(s);
        o += 1;
        proof {
            assert(statuses@ =~= Seq::new(8, |o: int| node_status(transformer@, delta_in@, o)).subrange(0, o as int));
        }
    }
    proof {
        assert(statuses@ =~= Seq::new(8, |o: int| node_status(transformer@, delta_in@, o)));
    }
    statuses
}

} // verus!

verus! {

// ============================================================
// Exhaustive single-byte sweep
// ============================================================

/// Tallies of `exact_layer0_active_status` over all 255 nonzero values of
/// one input byte.
pub struct Layer0ExactSweep {
    pub active_position: usize,
    /// Number of distinct nonzero input-difference values swept (255 =
    /// every one of them).
    pub deltas_tested: usize,
    pub proven_inactive_count: usize,
    pub proven_active_count: usize,
    /// 2+ active heads, DDT-compatible but proven not jointly realisable.
    pub ddt_compatible_but_not_realizable_count: usize,
    /// 2+ active heads, proven jointly realisable: an actual collision.
    pub jointly_realizable_count: usize,
    /// 2+ active heads, not DDT-compatible: proven no collision.
    pub not_ddt_compatible_count: usize,
    /// 2+ active heads, DDT-compatible, joint rank above the cap.
    pub joint_rank_exceeded_count: usize,
    /// First (delta value, output node) proven to admit a real collision.
    pub example_collision: Option<(u8, usize)>,
    /// First (delta value, output node) that the DDT check alone would
    /// flag but the joint check proves not realisable.
    pub example_false_positive: Option<(u8, usize)>,
}

/// The 8-byte difference with `d` at `pos` and zeros elsewhere.
pub open spec fn single_delta(pos: int, d: u8) -> Seq<u8> {
    Seq::new(8, |i: int| if i == pos { d } else { 0u8 })
}

/// Number of nodes `< o` whose status under `single_delta(pos, d)`
/// satisfies `p`.
pub open spec fn node_tally(t: TransformerModel, pos: int, d: u8, p: spec_fn(ExactActiveStatus) -> bool, o: nat) -> nat
    decreases o,
{
    if o == 0 {
        0
    } else {
        node_tally(t, pos, d, p, (o - 1) as nat) + if p(node_status(t, single_delta(pos, d), o - 1)) {
            1nat
        } else {
            0nat
        }
    }
}

/// Number of (value, node) pairs with value in `1..e` whose status
/// satisfies `p`.
pub open spec fn sweep_tally(t: TransformerModel, pos: int, p: spec_fn(ExactActiveStatus) -> bool, e: nat) -> nat
    decreases e,
{
    if e <= 1 {
        0
    } else {
        sweep_tally(t, pos, p, (e - 1) as nat) + node_tally(t, pos, (e - 1) as u8, p, 8)
    }
}

/// The first node `< o` (for value `d`) whose status satisfies `p`.
pub open spec fn first_node(t: TransformerModel, pos: int, d: u8, p: spec_fn(ExactActiveStatus) -> bool, o: nat) -> Option<(u8, usize)>
    decreases o,
{
    if o == 0 {
        None
    } else {
        match first_node(t, pos, d, p, (o - 1) as nat) {
            Some(e) => Some(e),
            None => if p(node_status(t, single_delta(pos, d), o - 1)) {
                Some((d, (o - 1) as usize))
            } else {
                None
            },
        }
    }
}

/// The first (value, node) pair with value in `1..e`, in sweep order,
/// whose status satisfies `p`.
pub open spec fn first_pair(t: TransformerModel, pos: int, p: spec_fn(ExactActiveStatus) -> bool, e: nat) -> Option<(u8, usize)>
    decreases e,
{
    if e <= 1 {
        None
    } else {
        match first_pair(t, pos, p, (e - 1) as nat) {
            Some(x) => Some(x),
            None => first_node(t, pos, (e - 1) as u8, p, 8),
        }
    }
}

pub open spec fn is_inactive(s: ExactActiveStatus) -> bool {
    s is ProvenInactive
}

pub open spec fn is_active(s: ExactActiveStatus) -> bool {
    s is ProvenActive
}

pub open spec fn is_not_compatible(s: ExactActiveStatus) -> bool {
    s matches ExactActiveStatus::Resolved { ddt_compatible: false, .. }
}

pub open spec fn is_collision(s: ExactActiveStatus) -> bool {
    s matches ExactActiveStatus::Resolved { ddt_compatible: true, jointly_realizable: Some(true), .. }
}

pub open spec fn is_false_positive(s: ExactActiveStatus) -> bool {
    s matches ExactActiveStatus::Resolved { ddt_compatible: true, jointly_realizable: Some(false), .. }
}

pub open spec fn is_rank_exceeded(s: ExactActiveStatus) -> bool {
    s matches ExactActiveStatus::Resolved { ddt_compatible: true, jointly_realizable: None, .. }
}

proof fn lemma_node_tally_le(t: TransformerModel, pos: int, d: u8, p: spec_fn(ExactActiveStatus) -> bool, o: nat)
    ensures
        node_tally(t, pos, d, p, o) <= o,
    decreases o,
{
    if o > 0 {
        lemma_node_tally_le(t, pos, d, p, (o - 1) as nat);
    }
}

proof fn lemma_sweep_tally_le(t: TransformerModel, pos: int, p: spec_fn(ExactActiveStatus) -> bool, e: nat)
    ensures
        sweep_tally(t, pos, p, e) <= 8 * e,
    decreases e,
{
    if e > 1 {
        lemma_sweep_tally_le(t, pos, p, (e - 1) as nat);
        lemma_node_tally_le(t, pos, (e - 1) as u8, p, 8);
    }
}

/// Runs `exact_layer0_active_status` over every one of the 255 nonzero
/// values of the input byte at `active_position` and tallies how each
/// output byte was classified.
pub fn exact_layer0_single_byte_sweep(transformer: &GeneratedTransformer, active_position: usize) -> (sweep: Layer0ExactSweep)
    requires
        layer0_ok(transformer@, 8),
        active_position < 8,
    ensures
        ({
            let t = transformer@;
            let pos = active_position as int;
            &&& sweep.active_position == active_position
            &&& sweep.deltas_tested == 255
            &&& sweep.proven_inactive_count == sweep_tally(t, pos, |s| is_inactive(s), 256)
            &&& sweep.proven_active_count == sweep_tally(t, pos, |s| is_active(s), 256)
            &&& sweep.ddt_compatible_but_not_realizable_count == sweep_tally(t, pos, |s| is_false_positive(s), 256)
            &&& sweep.jointly_realizable_count == sweep_tally(t, pos, |s| is_collision(s), 256)
            &&& sweep.not_ddt_compatible_count == sweep_tally(t, pos, |s| is_not_compatible(s), 256)
            &&& sweep.joint_rank_exceeded_count == sweep_tally(t, pos, |s| is_rank_exceeded(s), 256)
            &&& sweep.example_collision == first_pair(t, pos, |s| is_collision(s), 256)
            &&& sweep.example_false_positive == first_pair(t, pos, |s| is_false_positive(s), 256)
        }),
{
    let ghost t = transformer@;
    let ghost pos = active_position as int;
    let ghost p_in = |s| is_inactive(s);
    let ghost p_ac = |s| is_active(s);
    let ghost p_fp = |s| is_false_positive(s);
    let ghost p_co = |s| is_collision(s);
    let ghost p_nc = |s| is_not_compatible(s);
    let ghost p_rx = |s| is_rank_exceeded(s);
    let mut sweep = Layer0ExactSweep {
        active_position,
        deltas_tested: 0,
        proven_inactive_count: 0,
        proven_active_count: 0,
        ddt_compatible_but_not_realizable_count: 0,
        jointly_realizable_count: 0,
        not_ddt_compatible_count: 0,
        joint_rank_exceeded_count: 0,
        example_collision: None,
        example_false_positive: None,
    };
    let mut delta_val: usize = 1;
    while delta_val < 256
        invariant
            1 <= delta_val <= 256,
            t == transformer@,
            pos == active_position as int,
            active_position < 8,
            layer0_ok(t, 8),
            p_in == (|s| is_inactive(s)),
            p_ac == (|s| is_active(s)),
            p_fp == (|s| is_false_positive(s)),
            p_co == (|s| is_collision(s)),
            p_nc == (|s| is_not_compatible(s)),
            p_rx == (|s| is_rank_exceeded(s)),
            sweep.active_position == active_position,
            sweep.deltas_tested == delta_val - 1,
            sweep.proven_inactive_count == sweep_tally(t, pos, p_in, delta_val as nat),
            sweep.proven_active_count == sweep_tally(t, pos, p_ac, delta_val as nat),
            sweep.ddt_compatible_but_not_realizable_count == sweep_tally(t, pos, p_fp, delta_val as nat),
            sweep.jointly_realizable_count == sweep_tally(t, pos, p_co, delta_val as nat),
            sweep.not_ddt_compatible_count == sweep_tally(t, pos, p_nc, delta_val as nat),
            sweep.joint_rank_exceeded_count == sweep_tally(t, pos, p_rx, delta_val as nat),
            sweep.example_collision == first_pair(t, pos, p_co, delta_val as nat),
            sweep.example_false_positive == first_pair(t, pos, p_fp, delta_val as nat),
        decreases 256 - delta_val,
    {
        let d = delta_val as u8;
        let mut delta_in: Vec<u8> = vec![0u8, 0u8, 0u8, 0u8, 0u8, 0u8, 0u8, 0u8];
        delta_in.set(active_position, d);
        proof {
            assert(delta_in@ =~= single_delta(pos, d));
            lemma_sweep_tally_le(t, pos, p_in, delta_val as nat);
            lemma_sweep_tally_le(t, pos, p_ac, delta_val as nat);
            lemma_sweep_tally_le(t, pos, p_fp, delta_val as nat);
            lemma_sweep_tally_le(t, pos, p_co, delta_val as nat);
            lemma_sweep_tally_le(t, pos, p_nc, delta_val as nat);
            lemma_sweep_tally_le(t, pos, p_rx, delta_val as nat);
        }
        sweep.deltas_tested += 1;
        let statuses = exact_layer0_active_status(transformer, delta_in.as_slice());
        let ghost base_in = sweep.proven_inactive_count as nat;
        let ghost base_ac = sweep.proven_active_count as nat;
        let ghost base_fp = sweep.ddt_compatible_but_not_realizable_count as nat;
        let ghost base_co = sweep.jointly_realizable_count as nat;
        let ghost base_nc = sweep.not_ddt_compatible_count as nat;
        let ghost base_rx = sweep.joint_rank_exceeded_count as nat;
        let ghost first_co = sweep.example_collision;
        let ghost first_fp = sweep.example_false_positive;
        let mut node: usize = 0;
        while node < 8
            invariant
                node <= 8,
                1 <= delta_val < 256,
                d == delta_val as u8,
                statuses@ == Seq::new(8, |o: int| node_status(t, single_delta(pos, d), o)),
                base_in <= 8 * delta_val,
                base_ac <= 8 * delta_val,
                base_fp <= 8 * delta_val,
                base_co <= 8 * delta_val,
                base_nc <= 8 * delta_val,
                base_rx <= 8 * delta_val,
                sweep.proven_inactive_count == base_in + node_tally(t, pos, d, p_in, node as nat),
                sweep.proven_active_count == base_ac + node_tally(t, pos, d, p_ac, node as nat),
                sweep.ddt_compatible_but_not_realizable_count == base_fp + node_tally(t, pos, d, p_fp, node as nat),
                sweep.jointly_realizable_count == base_co + node_tally(t, pos, d, p_co, node as nat),
                sweep.not_ddt_compatible_count == base_nc + node_tally(t, pos, d, p_nc, node as nat),
                sweep.joint_rank_exceeded_count == base_rx + node_tally(t, pos, d, p_rx, node as nat),
                sweep.example_collision == match first_co {
                    Some(e) => Some(e),
                    None => first_node(t, pos, d, p_co, node as nat),
                },
                sweep.example_false_positive == match first_fp {
                    Some(e) => Some(e),
                    None => first_node(t, pos, d, p_fp, node as nat),
                },
                p_in == (|s| is_inactive(s)),
                p_ac == (|s| is_active(s)),
                p_fp == (|s| is_false_positive(s)),
                p_co == (|s| is_collision(s)),
                p_nc == (|s| is_not_compatible(s)),
                p_rx == (|s| is_rank_exceeded(s)),
                sweep.active_position == active_position,
                sweep.deltas_tested == delta_val,
            decreases 8 - node,
        {
            proof {
                lemma_node_tally_le(t, pos, d, p_in, node as nat);
                lemma_node_tally_le(t, pos, d, p_ac, node as nat);
                lemma_node_tally_le(t, pos, d, p_fp, node as nat);
                lemma_node_tally_le(t, pos, d, p_co, node as nat);
                lemma_node_tally_le(t, pos, d, p_nc, node as nat);
                lemma_node_tally_le(t, pos, d, p_rx, node as nat);
            }
            match &statuses[node] {
                ExactActiveStatus::ProvenInactive => {
                    sweep.proven_inactive_count += 1;
                },
                ExactActiveStatus::ProvenActive => {
                    sweep.proven_active_count += 1;
                },
                ExactActiveStatus::Resolved { ddt_compatible, jointly_realizable, .. } => {
                    if !*ddt_compatible {
                        sweep.not_ddt_compatible_count += 1;
                    } else {
                        match jointly_realizable {
                            Some(true) => {
                                sweep.jointly_realizable_count += 1;
                                if sweep.example_collision.is_none() {
                                    sweep.example_collision = Some((d, node));
                                }
                            },
                            Some(false) => {
                                sweep.ddt_compatible_but_not_realizable_count += 1;
                                if sweep.example_false_positive.is_none() {
                                    sweep.example_false_positive = Some((d, node));
                                }
                            },
                            None => {
                                sweep.joint_rank_exceeded_count += 1;
                            },
                        }
                    }
                },
            }
            node += 1;
        }
        delta_val += 1;
    }
    sweep
}

} // verus!

verus! {

// ============================================================
// Exactness of the classification
// ============================================================

/// Layer 0's output difference at node `o` between base states `x` and
/// `x XOR delta`.
pub open spec fn layer0_out_diff(t: TransformerModel, x: Seq<u8>, delta: Seq<u8>, o: int) -> u8 {
    layer_spec(x, t.connections[0], t.sboxes[0], t.heads)[o] ^ layer_spec(
        xor_state(x, delta),
        t.connections[0],
        t.sboxes[0],
        t.heads,
    )[o]
}

/// `joint_diff` reads only the first `k` listed heads.
proof fn lemma_joint_diff_prefix(
    lv: LayerView,
    o: int,
    hs: Seq<usize>,
    cs: Seq<u8>,
    hs2: Seq<usize>,
    cs2: Seq<u8>,
    sbox: Seq<u8>,
    x: Seq<u8>,
    k: nat,
)
    requires
        k <= hs.len(),
        k <= hs2.len(),
        k <= cs.len(),
        k <= cs2.len(),
        forall|j: int| 0 <= j < k ==> hs[j] == hs2[j] && cs[j] == cs2[j],
    ensures
        joint_diff(lv, o, hs, cs, sbox, x, k) == joint_diff(lv, o, hs2, cs2, sbox, x, k),
    decreases k,
{
    if k > 0 {
        lemma_joint_diff_prefix(lv, o, hs, cs, hs2, cs2, sbox, x, (k - 1) as nat);
    }
}

/// The sources of node `o` of every head `< h` index states of length `n`.
pub open spec fn node_sources_below(lv: LayerView, o: int, h: nat, n: nat) -> bool {
    forall|hh: int, k: int|
        0 <= hh < h && 0 <= k < node_len(lv[hh][o]) ==> #[trigger] lv[hh][o].0[k] < n
}

/// One head's output difference at a node is `S(a) XOR S(a XOR c)`, with
/// `a` the accumulator at `x` and `c` the accumulator of the difference.
proof fn lemma_node_output_diff(x: Seq<u8>, delta: Seq<u8>, node: NodeView, sbox: Seq<u8>)
    requires
        x.len() == delta.len(),
        forall|k: int| 0 <= k < node_len(node) ==> #[trigger] node.0[k] < x.len(),
    ensures
        ({
            let a = node_acc(x, node.0, node.1, node_len(node));
            let c = node_acc(delta, node.0, node.1, node_len(node));
            node_output(x, node, sbox) ^ node_output(xor_state(x, delta), node, sbox) == sbox[a as int]
                ^ sbox[(a ^ c) as int]
        }),
{
    lemma_node_acc_xor(x, delta, node.0, node.1, node_len(node));
}

proof fn lemma_heads_diff(lv: LayerView, sbox: Seq<u8>, x: Seq<u8>, delta: Seq<u8>, o: int, h: nat)
    requires
        h <= usize::MAX,
        x.len() == delta.len(),
        node_sources_below(lv, o, h, x.len()),
    ensures
        ({
            let hs = active_heads(lv, o, delta, h);
            heads_xor(x, lv, sbox, h, o) ^ heads_xor(xor_state(x, delta), lv, sbox, h, o) == joint_diff(
                lv,
                o,
                hs,
                head_deltas(lv, o, delta, hs),
                sbox,
                x,
                hs.len(),
            )
        }),
    decreases h,
{
    let xd = xor_state(x, delta);
    if h == 0 {
        lemma_xor_u8_facts(0, 0, 0, 0);
    } else {
        lemma_heads_diff(lv, sbox, x, delta, o, (h - 1) as nat);
        let hp = active_heads(lv, o, delta, (h - 1) as nat);
        let cp = head_deltas(lv, o, delta, hp);
        let hs = active_heads(lv, o, delta, h);
        let cs = head_deltas(lv, o, delta, hs);
        let node = lv[h - 1][o];
        let a = head_acc(lv, h - 1, o, x);
        let c = head_acc(lv, h - 1, o, delta);
        assert forall|k: int| 0 <= k < node_len(node) implies #[trigger] node.0[k] < x.len() by {
            assert(lv[h - 1][o].0[k] < x.len());
        }
        lemma_node_output_diff(x, delta, node, sbox);
        let term = sbox[a as int] ^ sbox[(a ^ c) as int];
        let ox = node_output(x, node, sbox);
        let od = node_output(xd, node, sbox);
        let px = heads_xor(x, lv, sbox, (h - 1) as nat, o);
        let pd = heads_xor(xd, lv, sbox, (h - 1) as nat, o);
        assert(heads_xor(x, lv, sbox, h, o) == px ^ ox);
        assert(heads_xor(xd, lv, sbox, h, o) == pd ^ od);
        lemma_xor_u8_facts(px, ox, pd, od);
        assert(ox ^ od == term);
        let prev = joint_diff(lv, o, hp, cp, sbox, x, hp.len());
        assert(px ^ pd == prev);
        if c != 0 {
            assert(hs == hp.push((h - 1) as usize));
            assert forall|j: int| 0 <= j < hp.len() implies hs[j] == hp[j] && cs[j] == cp[j] by {}
            lemma_joint_diff_prefix(lv, o, hs, cs, hp, cp, sbox, x, hp.len());
            assert(hs[hp.len() as int] == (h - 1) as usize);
            assert(cs[hp.len() as int] == c);
            assert(joint_diff(lv, o, hs, cs, sbox, x, hs.len()) == prev ^ term);
        } else {
            assert(hs == hp);
            lemma_xor_u8_facts(a, 0, 0, 0);
            lemma_xor_u8_facts(sbox[a as int], 0, 0, 0);
            assert(term == 0);
            lemma_xor_u8_facts(prev, 0, 0, 0);
        }
    }
}

/// The two checks of a resolved node agree where they must: rows that
/// cannot cancel give `Some(false)`, and `Some(true)` only comes with
/// compatible rows.
pub proof fn lemma_status_checks_agree(t: TransformerModel, delta: Seq<u8>, o: int)
    ensures
        node_status(t, delta, o) matches ExactActiveStatus::Resolved { ddt_compatible, jointly_realizable, .. } ==> {
            &&& !ddt_compatible ==> jointly_realizable == Some(false)
            &&& jointly_realizable == Some(true) ==> ddt_compatible
        },
{
}

/// A decided joint check of the classification is joint realisability.
proof fn lemma_status_decided(t: TransformerModel, delta: Seq<u8>, o: int)
    requires
        layer0_ok(t, delta.len()),
    ensures
        ({
            let lv = t.connections[0];
            let hs = active_heads(lv, o, delta, t.heads);
            let cs = head_deltas(lv, o, delta, hs);
            node_status(t, delta, o) matches ExactActiveStatus::Resolved { jointly_realizable: Some(r), .. } ==> r
                == jointly_realizable(lv, o, hs, cs, t.sboxes[0], delta.len())
        }),
{
    let lv = t.connections[0];
    let hs = active_heads(lv, o, delta, t.heads);
    let cs = head_deltas(lv, o, delta, hs);
    if jointly_realizable(lv, o, hs, cs, t.sboxes[0], delta.len()) {
        lemma_realizable_implies_compatible(lv, o, hs, cs, t.sboxes[0], delta.len());
    }
}

/// The layer-0 classification is exact: a node classified inactive has no
/// output difference for any base state, a node with a single active head
/// always has one when the layer S-box is a bijection, and a decided
/// joint check says exactly whether some base state cancels the
/// difference.
pub proof fn lemma_layer0_status_exact(t: TransformerModel, delta: Seq<u8>, o: int)
    requires
        layer0_ok(t, delta.len()),
        t.heads <= usize::MAX,
        0 <= o < 8,
    ensures
        node_status(t, delta, o) is ProvenInactive ==> forall|x: Seq<u8>|
            x.len() == delta.len() ==> #[trigger] layer0_out_diff(t, x, delta, o) == 0,
        node_status(t, delta, o) is ProvenActive && is_byte_bijection(t.sboxes[0]) ==> forall|x: Seq<u8>|
            x.len() == delta.len() ==> #[trigger] layer0_out_diff(t, x, delta, o) != 0,
        node_status(t, delta, o) matches ExactActiveStatus::Resolved { jointly_realizable: Some(r), .. } ==> (r
            <==> exists|x: Seq<u8>| x.len() == delta.len() && #[trigger] layer0_out_diff(t, x, delta, o) == 0),
{
    let lv = t.connections[0];
    let sbox = t.sboxes[0];
    let hs = active_heads(lv, o, delta, t.heads);
    let cs = head_deltas(lv, o, delta, hs);
    assert(node_sources_below(lv, o, t.heads, delta.len())) by {
        assert forall|hh: int, k: int| 0 <= hh < t.heads && 0 <= k < node_len(lv[hh][o]) implies #[trigger] lv[hh][o].0[k]
            < delta.len() by {
            assert(t.connections[0][hh].len() >= 8);
        }
    }
    assert forall|x: Seq<u8>| x.len() == delta.len() implies #[trigger] layer0_out_diff(t, x, delta, o)
        == joint_diff(lv, o, hs, cs, sbox, x, hs.len()) by {
        lemma_heads_diff(lv, sbox, x, delta, o, t.heads);
    }
    let n = delta.len();
    lemma_status_decided(t, delta, o);
    if jointly_realizable(lv, o, hs, cs, sbox, n) {
        let x = choose|x: Seq<u8>| x.len() == n && #[trigger] joint_diff(lv, o, hs, cs, sbox, x, hs.len()) == 0;
        assert(layer0_out_diff(t, x, delta, o) == 0);
    }
    if exists|x: Seq<u8>| x.len() == n && #[trigger] layer0_out_diff(t, x, delta, o) == 0 {
        let x = choose|x: Seq<u8>| x.len() == n && #[trigger] layer0_out_diff(t, x, delta, o) == 0;
        assert(joint_diff(lv, o, hs, cs, sbox, x, hs.len()) == 0);
    }
    if hs.len() == 1 && is_byte_bijection(sbox) {
        assert forall|x: Seq<u8>| x.len() == delta.len() implies #[trigger] layer0_out_diff(t, x, delta, o) != 0 by {
            let a = head_acc(lv, hs[0] as int, o, x);
            let c = cs[0];
            lemma_active_heads_nonzero(lv, o, delta, t.heads);
            assert(c != 0);
            lemma_xor_u8_facts(a, a, 0, c);
            lemma_xor_u8_facts(c, 0, 0, 0);
            crate::gf::lemma_xor_zero_eq(a, a ^ c);
            assert(a != a ^ c);
            assert(sbox[a as int] != sbox[(a ^ c) as int]);
            crate::gf::lemma_xor_zero_eq(sbox[a as int], sbox[(a ^ c) as int]);
            lemma_xor_u8_facts(sbox[a as int] ^ sbox[(a ^ c) as int], 0, 0, 0);
            assert(joint_diff(lv, o, hs, cs, sbox, x, 0) == 0);
            assert(joint_diff(lv, o, hs, cs, sbox, x, 1) == 0u8 ^ (sbox[a as int] ^ sbox[(a ^ c) as int]));
        }
    }
}

proof fn lemma_active_heads_nonzero(lv: LayerView, o: int, delta: Seq<u8>, h: nat)
    requires
        h <= usize::MAX,
    ensures
        forall|j: int|
            0 <= j < active_heads(lv, o, delta, h).len() ==> head_acc(
                lv,
                #[trigger] active_heads(lv, o, delta, h)[j] as int,
                o,
                delta,
            ) != 0,
    decreases h,
{
    if h > 0 {
        lemma_active_heads_nonzero(lv, o, delta, (h - 1) as nat);
        let hp = active_heads(lv, o, delta, (h - 1) as nat);
        assert forall|j: int| 0 <= j < hp.len() implies #[trigger] active_heads(lv, o, delta, h)[j] == hp[j] by {}
    }
}

} // verus!
