//! S-box metrics under affine equivalence: an S-box `A(x^-1) XOR b` with
//! an invertible binary matrix `A` shares the differential uniformity,
//! linearity (hence nonlinearity), algebraic degree and autocorrelation of
//! the GF(2^8) inversion, so every generated S-box has the same values of
//! these metrics whatever the key.

use crate::analyzer::{
    ddt_count, ddt_out, ddt_row_max, differential_uniformity_below, differential_uniformity_spec,
    algebraic_degree_below, anf_degree_below, autocorrelation_below, autocorrelation_row_max,
    autocorrelation_sum, component_sign, component_table, lat_column_max, mobius, mobius_stage,
    lat_count, lat_deviation, lemma_autocorrelation_bounds, lemma_byte_table_ok, lemma_linearity_bounds,
    linearity_below, linearity_spec,
};
use crate::exact::lemma_xor_u8_facts;
use crate::analyzer::{bit_count, parity_of};
use crate::gf::{gf2_invertible_spec, gf_inv_spec, lemma_mat_vec_xor, lemma_parity_xor, mat_vec_spec, parity8};
use crate::sbox::{
    affine_constant, affine_matrix, affine_sbox, lemma_affine_matrix_invertible, sbox_derivable, sbox_spec,
};
use vstd::prelude::*;

verus! {

// ============================================================
// Differential uniformity of affine-equivalent S-boxes
// ============================================================

/// The GF(2^8) inversion table `x -> x^-1` (with 0 -> 0).
pub open spec fn inversion_table() -> Seq<u8> {
    Seq::new(256, |x: int| gf_inv_spec(x as u8))
}

/// The output difference of `A(x^-1) XOR b` is `A` applied to that of the
/// inversion.
proof fn lemma_affine_ddt_out(rows: Seq<u8>, b: u8, x: usize, d: usize)
    requires
        rows.len() == 8,
        x < 256,
        (x ^ d) < 256,
    ensures
        ddt_out(affine_sbox(rows, b), x, d) == mat_vec_spec(rows, ddt_out(inversion_table(), x, d)),
{
    let i = inversion_table();
    let p = mat_vec_spec(rows, i[x as int]);
    let q = mat_vec_spec(rows, i[(x ^ d) as int]);
    lemma_xor_u8_facts(p, b, q, b);
    lemma_xor_u8_facts(p ^ q, 0, 0, 0);
    lemma_xor_u8_facts(b, 0, 0, 0);
    lemma_mat_vec_xor(rows, i[x as int], i[(x ^ d) as int]);
}

/// Counting output difference `A(w)` of the affine S-box is counting `w`
/// for the inversion.
proof fn lemma_affine_ddt_count(rows: Seq<u8>, b: u8, d: usize, w: u8, k: nat)
    requires
        rows.len() == 8,
        gf2_invertible_spec(rows),
        d < 256,
        k <= 256,
    ensures
        ddt_count(affine_sbox(rows, b), d, mat_vec_spec(rows, w), k) == ddt_count(inversion_table(), d, w, k),
    decreases k,
{
    if k > 0 {
        lemma_affine_ddt_count(rows, b, d, w, (k - 1) as nat);
        lemma_byte_table_ok(inversion_table());
        let x = (k - 1) as usize;
        assert((x ^ d) < 256);
        lemma_affine_ddt_out(rows, b, x, d);
    }
}

/// An output difference outside the image of `A` never occurs.
proof fn lemma_affine_ddt_count_outside(rows: Seq<u8>, b: u8, d: usize, v: u8, k: nat)
    requires
        rows.len() == 8,
        d < 256,
        k <= 256,
        forall|w: u8| #[trigger] mat_vec_spec(rows, w) != v,
    ensures
        ddt_count(affine_sbox(rows, b), d, v, k) == 0,
    decreases k,
{
    if k > 0 {
        lemma_affine_ddt_count_outside(rows, b, d, v, (k - 1) as nat);
        lemma_byte_table_ok(inversion_table());
        let x = (k - 1) as usize;
        assert((x ^ d) < 256);
        lemma_affine_ddt_out(rows, b, x, d);
    }
}

/// The row maximum bounds every entry of the row and is one of them.
proof fn lemma_row_max(s: Seq<u8>, d: usize, m: nat)
    requires
        m <= 256,
    ensures
        forall|v: int| 0 <= v < m ==> #[trigger] ddt_count(s, d, v as u8, s.len()) <= ddt_row_max(s, d, m),
        m > 0 ==> exists|v: int| 0 <= v < m && #[trigger] ddt_count(s, d, v as u8, s.len()) == ddt_row_max(s, d, m),
    decreases m,
{
    if m > 0 {
        lemma_row_max(s, d, (m - 1) as nat);
        assert(ddt_row_max(s, d, 0) == 0);
        let c = ddt_count(s, d, (m - 1) as u8, s.len());
        if m - 1 > 0 && c <= ddt_row_max(s, d, (m - 1) as nat) {
            let v = choose|v: int|
                0 <= v < m - 1 && #[trigger] ddt_count(s, d, v as u8, s.len()) == ddt_row_max(s, d, (m - 1) as nat);
            assert(ddt_count(s, d, v as u8, s.len()) == ddt_row_max(s, d, m));
        } else {
            assert(ddt_count(s, d, (m - 1) as u8, s.len()) == ddt_row_max(s, d, m));
        }
    }
}

/// Row `d` of the affine S-box has the same maximum as row `d` of the
/// inversion.
proof fn lemma_affine_row_max(rows: Seq<u8>, b: u8, d: usize)
    requires
        rows.len() == 8,
        gf2_invertible_spec(rows),
        d < 256,
    ensures
        ddt_row_max(affine_sbox(rows, b), d, 256) == ddt_row_max(inversion_table(), d, 256),
{
    let s = affine_sbox(rows, b);
    let i = inversion_table();
    lemma_row_max(s, d, 256);
    lemma_row_max(i, d, 256);
    let vs = choose|v: int| 0 <= v < 256 && #[trigger] ddt_count(s, d, v as u8, s.len()) == ddt_row_max(s, d, 256);
    if exists|w: u8| #[trigger] mat_vec_spec(rows, w) == vs as u8 {
        let w = choose|w: u8| #[trigger] mat_vec_spec(rows, w) == vs as u8;
        lemma_affine_ddt_count(rows, b, d, w, 256);
        assert(ddt_count(i, d, (w as int) as u8, i.len()) <= ddt_row_max(i, d, 256));
    } else {
        lemma_affine_ddt_count_outside(rows, b, d, vs as u8, 256);
    }
    let wi = choose|v: int| 0 <= v < 256 && #[trigger] ddt_count(i, d, v as u8, i.len()) == ddt_row_max(i, d, 256);
    let a = mat_vec_spec(rows, wi as u8);
    lemma_affine_ddt_count(rows, b, d, wi as u8, 256);
    assert(ddt_count(s, d, (a as int) as u8, s.len()) <= ddt_row_max(s, d, 256));
}

proof fn lemma_affine_du_below(rows: Seq<u8>, b: u8, e: nat)
    requires
        rows.len() == 8,
        gf2_invertible_spec(rows),
        e <= 256,
    ensures
        differential_uniformity_below(affine_sbox(rows, b), e) == differential_uniformity_below(inversion_table(), e),
    decreases e,
{
    if e > 1 {
        lemma_affine_du_below(rows, b, (e - 1) as nat);
        lemma_affine_row_max(rows, b, (e - 1) as usize);
    }
}

/// An S-box `A(x^-1) XOR b` with an invertible binary matrix `A` has the
/// differential uniformity of the GF(2^8) inversion: an invertible
/// linear map and a constant only relabel output differences.
pub proof fn lemma_affine_sbox_du(rows: Seq<u8>, b: u8)
    requires
        rows.len() == 8,
        gf2_invertible_spec(rows),
    ensures
        differential_uniformity_spec(affine_sbox(rows, b)) == differential_uniformity_spec(inversion_table()),
{
    lemma_affine_du_below(rows, b, 256);
}

/// Every generated S-box has the differential uniformity of the GF(2^8)
/// inversion, whatever the key, round and identifier.
pub proof fn lemma_generated_sbox_du(key: Seq<u8>, round_number: u32, identifier: Seq<u8>)
    requires
        sbox_derivable(key, round_number, identifier),
    ensures
        differential_uniformity_spec(sbox_spec(key, round_number, identifier)) == differential_uniformity_spec(
            inversion_table(),
        ),
{
    lemma_affine_matrix_invertible(key, round_number, identifier);
    lemma_affine_sbox_du(affine_matrix(key, round_number, identifier), affine_constant(key, round_number, identifier));
}

} // verus!

verus! {

// ============================================================
// Parities of bytes
// ============================================================

pub(crate) proof fn lemma_byte_bit_facts(v: u8, b: usize, s: u8, w: u8)
    by (bit_vector)
    requires
        b < 256,
    ensures
        w == ((((((((0u8 ^ (w & 1u8)) ^ (w & 2u8)) ^ (w & 4u8)) ^ (w & 8u8)) ^ (w & 16u8)) ^ (w & 32u8)) ^ (w & 64u8))
            ^ (w & 128u8)),
        (w & 1u8) == 0 || (w & 1u8) == 1u8,
        (w & 2u8) == 0 || (w & 2u8) == 2u8,
        (w & 4u8) == 0 || (w & 4u8) == 4u8,
        (w & 8u8) == 0 || (w & 8u8) == 8u8,
        (w & 16u8) == 0 || (w & 16u8) == 16u8,
        (w & 32u8) == 0 || (w & 32u8) == 32u8,
        (w & 64u8) == 0 || (w & 64u8) == 64u8,
        (w & 128u8) == 0 || (w & 128u8) == 128u8,
        ((w >> 0u8) & 1u8 != 0) == ((w & 1u8) != 0),
        ((w >> 1u8) & 1u8 != 0) == ((w & 2u8) != 0),
        ((w >> 2u8) & 1u8 != 0) == ((w & 4u8) != 0),
        ((w >> 3u8) & 1u8 != 0) == ((w & 8u8) != 0),
        ((w >> 4u8) & 1u8 != 0) == ((w & 16u8) != 0),
        ((w >> 5u8) & 1u8 != 0) == ((w & 32u8) != 0),
        ((w >> 6u8) & 1u8 != 0) == ((w & 64u8) != 0),
        ((w >> 7u8) & 1u8 != 0) == ((w & 128u8) != 0),
        w != 0 ==> (parity8(w & 1u8) == 1 || parity8(w & 2u8) == 1 || parity8(w & 4u8) == 1 || parity8(w & 8u8) == 1
            || parity8(w & 16u8) == 1 || parity8(w & 32u8) == 1 || parity8(w & 64u8) == 1 || parity8(w & 128u8) == 1),
        parity8(v) == ((v & 1u8) ^ parity8(v >> 1u8)),
        v & 1u8 == v % 2,
        v >> 1u8 == v / 2,
        parity8(v) <= 1,
        parity8(0u8) == 0,
        v & 1u8 <= 1,
        0u8 ^ 0u8 == 0u8,
        0u8 ^ 1u8 == 1u8,
        1u8 ^ 0u8 == 1u8,
        1u8 ^ 1u8 == 0u8,
        (b & (s as usize)) < 256,
        ((b & (s as usize)) as u8) == ((b as u8) & s),
{
}

/// The parity of the number of ones of a byte, counted in `usize`, is
/// its `parity8`.
proof fn lemma_parity_of_byte(v: u8)
    ensures
        parity_of(v as usize) == parity8(v) as nat,
    decreases v,
{
    lemma_byte_bit_facts(v, 0, 0, 0);
    if v != 0 {
        let h = (v / 2) as u8;
        lemma_parity_of_byte(h);
        lemma_byte_bit_facts(h, 0, 0, 0);
        assert(bit_count(v as nat) == v % 2 + bit_count((v / 2) as nat));
        assert(((v / 2) as u8) as usize as nat == (v / 2) as nat);
    }
}

/// `parity(b AND s)` for a mask `b < 256` and a byte `s`.
proof fn lemma_parity_of_and(b: usize, s: u8)
    requires
        b < 256,
    ensures
        parity_of(b & (s as usize)) == parity8((b as u8) & s) as nat,
{
    lemma_byte_bit_facts(0, b, s, 0);
    lemma_parity_of_byte((b as u8) & s);
}

} // verus!

verus! {

// ============================================================
// The transposed matrix
// ============================================================

/// `A y` over GF(2) for the matrix with rows `r0 .. r7`.
pub open spec fn mat_vec8(r0: u8, r1: u8, r2: u8, r3: u8, r4: u8, r5: u8, r6: u8, r7: u8, y: u8) -> u8 {
    parity8(r0 & y) | (parity8(r1 & y) << 1u8) | (parity8(r2 & y) << 2u8) | (parity8(r3 & y) << 3u8) | (parity8(
        r4 & y,
    ) << 4u8) | (parity8(r5 & y) << 5u8) | (parity8(r6 & y) << 6u8) | (parity8(r7 & y) << 7u8)
}

/// Column `j` of the matrix with rows `r0 .. r7`: bit `i` is bit `j` of
/// row `i`.
pub open spec fn column8(r0: u8, r1: u8, r2: u8, r3: u8, r4: u8, r5: u8, r6: u8, r7: u8, j: u8) -> u8 {
    ((r0 >> j) & 1u8) | (((r1 >> j) & 1u8) << 1u8) | (((r2 >> j) & 1u8) << 2u8) | (((r3 >> j) & 1u8) << 3u8) | (((r4
        >> j) & 1u8) << 4u8) | (((r5 >> j) & 1u8) << 5u8) | (((r6 >> j) & 1u8) << 6u8) | (((r7 >> j) & 1u8) << 7u8)
}

/// The rows of the transposed matrix.
pub open spec fn transpose_rows(rows: Seq<u8>) -> Seq<u8> {
    Seq::new(
        8,
        |j: int| column8(rows[0], rows[1], rows[2], rows[3], rows[4], rows[5], rows[6], rows[7], j as u8),
    )
}

/// The transposed matrix maps the unit byte `2^i` to row `i`, and a byte
/// whose bits are `p0 .. p7` has bit `i` under the unit mask `2^i`.
proof fn lemma_transpose_units(
    r0: u8,
    r1: u8,
    r2: u8,
    r3: u8,
    r4: u8,
    r5: u8,
    r6: u8,
    r7: u8,
    p0: u8,
    p1: u8,
    p2: u8,
    p3: u8,
    p4: u8,
    p5: u8,
    p6: u8,
    p7: u8,
)
    by (bit_vector)
    requires
        p0 <= 1,
        p1 <= 1,
        p2 <= 1,
        p3 <= 1,
        p4 <= 1,
        p5 <= 1,
        p6 <= 1,
        p7 <= 1,
    ensures
        ({
            let v = p0 | (p1 << 1u8) | (p2 << 2u8) | (p3 << 3u8) | (p4 << 4u8) | (p5 << 5u8) | (p6 << 6u8) | (p7
                << 7u8);
            &&& parity8(1u8 & v) == p0
            &&& parity8(2u8 & v) == p1
            &&& parity8(4u8 & v) == p2
            &&& parity8(8u8 & v) == p3
            &&& parity8(16u8 & v) == p4
            &&& parity8(32u8 & v) == p5
            &&& parity8(64u8 & v) == p6
            &&& parity8(128u8 & v) == p7
        }),
        ({
            let c0 = column8(r0, r1, r2, r3, r4, r5, r6, r7, 0u8);
            let c1 = column8(r0, r1, r2, r3, r4, r5, r6, r7, 1u8);
            let c2 = column8(r0, r1, r2, r3, r4, r5, r6, r7, 2u8);
            let c3 = column8(r0, r1, r2, r3, r4, r5, r6, r7, 3u8);
            let c4 = column8(r0, r1, r2, r3, r4, r5, r6, r7, 4u8);
            let c5 = column8(r0, r1, r2, r3, r4, r5, r6, r7, 5u8);
            let c6 = column8(r0, r1, r2, r3, r4, r5, r6, r7, 6u8);
            let c7 = column8(r0, r1, r2, r3, r4, r5, r6, r7, 7u8);
            &&& mat_vec8(c0, c1, c2, c3, c4, c5, c6, c7, 1u8) == r0
            &&& mat_vec8(c0, c1, c2, c3, c4, c5, c6, c7, 2u8) == r1
            &&& mat_vec8(c0, c1, c2, c3, c4, c5, c6, c7, 4u8) == r2
            &&& mat_vec8(c0, c1, c2, c3, c4, c5, c6, c7, 8u8) == r3
            &&& mat_vec8(c0, c1, c2, c3, c4, c5, c6, c7, 16u8) == r4
            &&& mat_vec8(c0, c1, c2, c3, c4, c5, c6, c7, 32u8) == r5
            &&& mat_vec8(c0, c1, c2, c3, c4, c5, c6, c7, 64u8) == r6
            &&& mat_vec8(c0, c1, c2, c3, c4, c5, c6, c7, 128u8) == r7
        }),
{
}

/// The unit byte `2^i`.
pub open spec fn unit_byte(i: int) -> u8 {
    if i == 0 {
        1
    } else if i == 1 {
        2
    } else if i == 2 {
        4
    } else if i == 3 {
        8
    } else if i == 4 {
        16
    } else if i == 5 {
        32
    } else if i == 6 {
        64
    } else {
        128
    }
}

/// The bits of `b` below position `k`, accumulated by XOR.
pub open spec fn low_bits(b: u8, k: nat) -> u8
    decreases k,
{
    if k == 0 {
        0
    } else {
        low_bits(b, (k - 1) as nat) ^ (b & unit_byte(k - 1))
    }
}

/// Row `i` seen through the unit byte `2^i`, on both sides of the duality.
proof fn lemma_unit_duality(rows: Seq<u8>, y: u8, i: int)
    requires
        rows.len() == 8,
        0 <= i < 8,
    ensures
        parity8(unit_byte(i) & mat_vec_spec(rows, y)) == parity8(rows[i] & y),
        mat_vec_spec(transpose_rows(rows), unit_byte(i)) == rows[i],
{
    let t = transpose_rows(rows);
    lemma_parity_xor(rows[0], 0, y);
    lemma_parity_xor(rows[1], 0, y);
    lemma_parity_xor(rows[2], 0, y);
    lemma_parity_xor(rows[3], 0, y);
    lemma_parity_xor(rows[4], 0, y);
    lemma_parity_xor(rows[5], 0, y);
    lemma_parity_xor(rows[6], 0, y);
    lemma_parity_xor(rows[7], 0, y);
    lemma_transpose_units(
        rows[0],
        rows[1],
        rows[2],
        rows[3],
        rows[4],
        rows[5],
        rows[6],
        rows[7],
        parity8(rows[0] & y),
        parity8(rows[1] & y),
        parity8(rows[2] & y),
        parity8(rows[3] & y),
        parity8(rows[4] & y),
        parity8(rows[5] & y),
        parity8(rows[6] & y),
        parity8(rows[7] & y),
    );
    assert(t[0] == column8(rows[0], rows[1], rows[2], rows[3], rows[4], rows[5], rows[6], rows[7], 0u8));
    assert(t[1] == column8(rows[0], rows[1], rows[2], rows[3], rows[4], rows[5], rows[6], rows[7], 1u8));
    assert(t[2] == column8(rows[0], rows[1], rows[2], rows[3], rows[4], rows[5], rows[6], rows[7], 2u8));
    assert(t[3] == column8(rows[0], rows[1], rows[2], rows[3], rows[4], rows[5], rows[6], rows[7], 3u8));
    assert(t[4] == column8(rows[0], rows[1], rows[2], rows[3], rows[4], rows[5], rows[6], rows[7], 4u8));
    assert(t[5] == column8(rows[0], rows[1], rows[2], rows[3], rows[4], rows[5], rows[6], rows[7], 5u8));
    assert(t[6] == column8(rows[0], rows[1], rows[2], rows[3], rows[4], rows[5], rows[6], rows[7], 6u8));
    assert(t[7] == column8(rows[0], rows[1], rows[2], rows[3], rows[4], rows[5], rows[6], rows[7], 7u8));
    assert(mat_vec_spec(t, unit_byte(i)) == mat_vec8(t[0], t[1], t[2], t[3], t[4], t[5], t[6], t[7], unit_byte(i)));
}

/// A linear map sends 0 to 0.
proof fn lemma_mat_vec_zero(m: Seq<u8>)
    requires
        m.len() == 8,
    ensures
        mat_vec_spec(m, 0) == 0,
{
    lemma_xor_u8_facts(0, 0, 0, 0);
    lemma_mat_vec_xor(m, 0, 0);
    lemma_xor_u8_facts(mat_vec_spec(m, 0), 0, 0, 0);
}

proof fn lemma_low_bits_duality(rows: Seq<u8>, b: u8, y: u8, k: nat)
    requires
        rows.len() == 8,
        k <= 8,
    ensures
        parity8(low_bits(b, k) & mat_vec_spec(rows, y)) == parity8(mat_vec_spec(transpose_rows(rows), low_bits(b, k))
            & y),
    decreases k,
{
    let t = transpose_rows(rows);
    let z = mat_vec_spec(rows, y);
    if k == 0 {
        lemma_mat_vec_zero(t);
        lemma_parity_xor(0, 0, z);
        lemma_parity_xor(0, 0, y);
    } else {
        lemma_low_bits_duality(rows, b, y, (k - 1) as nat);
        let l = low_bits(b, (k - 1) as nat);
        let d = b & unit_byte(k - 1);
        lemma_parity_xor(l, d, z);
        lemma_mat_vec_xor(t, l, d);
        lemma_parity_xor(mat_vec_spec(t, l), mat_vec_spec(t, d), y);
        lemma_byte_bit_facts(0, 0, 0, b);
        if d == 0 {
            lemma_mat_vec_zero(t);
            lemma_parity_xor(0, 0, z);
            lemma_parity_xor(0, 0, y);
        } else {
            assert(d == unit_byte(k - 1));
            lemma_unit_duality(rows, y, k - 1);
        }
    }
}

/// `parity(b AND A y) = parity(A^T b AND y)`.
proof fn lemma_transpose_duality(rows: Seq<u8>, b: u8, y: u8)
    requires
        rows.len() == 8,
    ensures
        parity8(b & mat_vec_spec(rows, y)) == parity8(mat_vec_spec(transpose_rows(rows), b) & y),
{
    lemma_low_bits_duality(rows, b, y, 8);
    lemma_byte_bit_facts(0, 0, 0, b);
    reveal_with_fuel(low_bits, 9);
    assert(low_bits(b, 8) == b);
}

/// An invertible binary matrix maps bytes onto bytes.
proof fn lemma_matrix_onto(rows: Seq<u8>, v: u8)
    requires
        gf2_invertible_spec(rows),
    ensures
        exists|y: u8| mat_vec_spec(rows, y) == v,
{
    broadcast use vstd::set_lib::full_set_properties;

    let f = |y: u8| mat_vec_spec(rows, y);
    let full = Set::<u8>::full();
    assert(full.finite());
    let img = full.map(f);
    assert(vstd::relations::injective_on(f, full)) by {
        assert forall|x: u8, y: u8| full.contains(x) && full.contains(y) && #[trigger] f(x) == #[trigger] f(y) implies x
            == y by {
            assert(mat_vec_spec(rows, x) == mat_vec_spec(rows, y));
        }
    }
    vstd::set_lib::lemma_map_size(full, img, f);
    assert(img.subset_of(full));
    vstd::set_lib::lemma_subset_equality(img, full);
    assert(full.contains(v));
    assert(img.contains(v));
    let y = choose|y: u8| full.contains(y) && f(y) == v;
    assert(mat_vec_spec(rows, y) == v);
}

/// The transpose of an invertible binary matrix is invertible.
proof fn lemma_transpose_invertible(rows: Seq<u8>)
    requires
        rows.len() == 8,
        gf2_invertible_spec(rows),
    ensures
        transpose_rows(rows).len() == 8,
        gf2_invertible_spec(transpose_rows(rows)),
{
    let t = transpose_rows(rows);
    assert forall|b1: u8, b2: u8| #[trigger] mat_vec_spec(t, b1) == #[trigger] mat_vec_spec(t, b2) implies b1 == b2 by {
        if b1 != b2 {
            let b = b1 ^ b2;
            crate::gf::lemma_xor_zero_eq(b1, b2);
            lemma_mat_vec_xor(t, b1, b2);
            lemma_xor_u8_facts(mat_vec_spec(t, b1), 0, 0, 0);
            assert(mat_vec_spec(t, b) == 0);
            lemma_byte_bit_facts(0, 0, 0, b);
            let v: u8 = if parity8(b & 1u8) == 1 {
                1u8
            } else if parity8(b & 2u8) == 1 {
                2u8
            } else if parity8(b & 4u8) == 1 {
                4u8
            } else if parity8(b & 8u8) == 1 {
                8u8
            } else if parity8(b & 16u8) == 1 {
                16u8
            } else if parity8(b & 32u8) == 1 {
                32u8
            } else if parity8(b & 64u8) == 1 {
                64u8
            } else {
                128u8
            };
            assert(parity8(b & v) == 1);
            lemma_matrix_onto(rows, v);
            let y = choose|y: u8| mat_vec_spec(rows, y) == v;
            lemma_transpose_duality(rows, b, y);
            lemma_parity_xor(0, 0, y);
        }
    }
}

} // verus!

verus! {

// ============================================================
// Component functions and the linear approximation table
// ============================================================

/// The output mask `b` of the affine S-box reads, through `A^T`, the
/// output mask `A^T b` of the inversion.
pub open spec fn dual_mask(rows: Seq<u8>, b: usize) -> usize {
    mat_vec_spec(transpose_rows(rows), b as u8) as usize
}

/// Whether the constant `c` flips the component `b`.
pub open spec fn mask_flip(b: usize, c: u8) -> bool {
    parity8((b as u8) & c) == 1
}

/// Component `b` of `A(x^-1) XOR c` is component `A^T b` of the
/// inversion, complemented when `parity(b AND c)` is 1.
proof fn lemma_affine_component(rows: Seq<u8>, c: u8, b: usize, x: int)
    requires
        rows.len() == 8,
        b < 256,
        0 <= x < 256,
    ensures
        dual_mask(rows, b) < 256,
        parity_of(b & (affine_sbox(rows, c)[x] as usize)) <= 1,
        parity_of(dual_mask(rows, b) & (inversion_table()[x] as usize)) <= 1,
        mask_flip(b, c) ==> parity_of(b & (affine_sbox(rows, c)[x] as usize)) != parity_of(
            dual_mask(rows, b) & (inversion_table()[x] as usize),
        ),
        !mask_flip(b, c) ==> parity_of(b & (affine_sbox(rows, c)[x] as usize)) == parity_of(
            dual_mask(rows, b) & (inversion_table()[x] as usize),
        ),
{
    let b8 = b as u8;
    let ix = inversion_table()[x];
    let tb = mat_vec_spec(transpose_rows(rows), b8);
    lemma_parity_of_and(b, affine_sbox(rows, c)[x]);
    lemma_parity_of_and(tb as usize, ix);
    lemma_byte_bit_facts(0, 0, 0, 0);
    lemma_parity_xor(b8, mat_vec_spec(rows, ix), c);
    lemma_parity_xor(b8, 0, c);
    lemma_parity_xor(tb, 0, ix);
    lemma_parity_xor(b8, 0, mat_vec_spec(rows, ix));
    lemma_transpose_duality(rows, b8, ix);
    assert((tb as usize) as u8 == tb);
}

/// Counting the agreements of component `b` of the affine S-box with
/// input mask `a` is counting those of component `A^T b` of the inversion
/// (or their disagreements, when `c` flips the component).
proof fn lemma_affine_lat_count(rows: Seq<u8>, c: u8, a: usize, b: usize, k: nat)
    requires
        rows.len() == 8,
        b < 256,
        k <= 256,
    ensures
        mask_flip(b, c) ==> lat_count(affine_sbox(rows, c), a, b, k) == k - lat_count(
            inversion_table(),
            a,
            dual_mask(rows, b),
            k,
        ),
        !mask_flip(b, c) ==> lat_count(affine_sbox(rows, c), a, b, k) == lat_count(
            inversion_table(),
            a,
            dual_mask(rows, b),
            k,
        ),
    decreases k,
{
    if k > 0 {
        lemma_affine_lat_count(rows, c, a, b, (k - 1) as nat);
        lemma_affine_component(rows, c, b, k - 1);
        let pa = parity_of(a & ((k - 1) as usize));
        assert(pa == crate::analyzer::bit_count((a & ((k - 1) as usize)) as nat) % 2);
        assert(pa <= 1);
    }
}

/// Every LAT entry of the affine S-box is, up to sign, the entry of the
/// inversion at the dual output mask.
proof fn lemma_affine_lat_deviation(rows: Seq<u8>, c: u8, a: usize, b: usize)
    requires
        rows.len() == 8,
        b < 256,
    ensures
        lat_deviation(affine_sbox(rows, c), a, b) == lat_deviation(inversion_table(), a, dual_mask(rows, b)),
{
    lemma_affine_lat_count(rows, c, a, b, 256);
}

/// The largest deviation of a column bounds every entry it ranges over,
/// and is its floor or one of them.
proof fn lemma_lat_column_max(s: Seq<u8>, b: usize, m: nat, floor: int)
    ensures
        lat_column_max(s, b, m, floor) >= floor,
        forall|a: int| 0 <= a < m ==> #[trigger] lat_deviation(s, a as usize, b) <= lat_column_max(s, b, m, floor),
        lat_column_max(s, b, m, floor) == floor || exists|a: int|
            0 <= a < m && #[trigger] lat_deviation(s, a as usize, b) == lat_column_max(s, b, m, floor),
    decreases m,
{
    if m > 0 {
        lemma_lat_column_max(s, b, (m - 1) as nat, floor);
        if lat_column_max(s, b, m, floor) != floor && lat_column_max(s, b, m, floor) != lat_column_max(
            s,
            b,
            (m - 1) as nat,
            floor,
        ) {
            assert(lat_deviation(s, (m - 1) as usize, b) == lat_column_max(s, b, m, floor));
        }
    }
}

/// Linearity bounds every `|LAT[a][b]|` with `b != 0`, and is 0 or one of
/// them.
proof fn lemma_linearity_below(s: Seq<u8>, e: nat)
    requires
        s.len() == 256,
        e <= 256,
    ensures
        linearity_below(s, e) >= 0,
        forall|a: int, b: int|
            0 <= a < 256 && 1 <= b < e ==> #[trigger] lat_deviation(s, a as usize, b as usize) <= linearity_below(s, e),
        linearity_below(s, e) == 0 || exists|a: int, b: int|
            0 <= a < 256 && 1 <= b < e && #[trigger] lat_deviation(s, a as usize, b as usize) == linearity_below(s, e),
    decreases e,
{
    lemma_linearity_bounds(s, e);
    if e > 1 {
        lemma_linearity_below(s, (e - 1) as nat);
        let prev = linearity_below(s, (e - 1) as nat);
        lemma_lat_column_max(s, (e - 1) as usize, 256, prev);
        if linearity_below(s, e) != prev {
            let a = choose|a: int|
                0 <= a < 256 && #[trigger] lat_deviation(s, a as usize, (e - 1) as usize) == lat_column_max(
                    s,
                    (e - 1) as usize,
                    256,
                    prev,
                );
            assert(lat_deviation(s, a as usize, ((e - 1) as int) as usize) == linearity_below(s, e));
        }
        assert forall|a: int, b: int| 0 <= a < 256 && 1 <= b < e implies #[trigger] lat_deviation(
            s,
            a as usize,
            b as usize,
        ) <= linearity_below(s, e) by {
            if b == e - 1 {
                assert(lat_deviation(s, a as usize, (e - 1) as usize) <= linearity_below(s, e));
            }
        }
    }
}

} // verus!

verus! {

// ============================================================
// Linearity of affine-equivalent S-boxes
// ============================================================

/// The dual mask of a nonzero mask is nonzero.
proof fn lemma_dual_mask_nonzero(rows: Seq<u8>)
    requires
        rows.len() == 8,
        gf2_invertible_spec(rows),
    ensures
        forall|b: int| 1 <= b < 256 ==> 1 <= #[trigger] dual_mask(rows, b as usize) < 256,
{
    let t = transpose_rows(rows);
    lemma_transpose_invertible(rows);
    lemma_mat_vec_zero(t);
    assert forall|b: int| 1 <= b < 256 implies 1 <= #[trigger] dual_mask(rows, b as usize) < 256 by {
        if mat_vec_spec(t, (b as usize) as u8) == 0 {
            assert(mat_vec_spec(t, (b as usize) as u8) == mat_vec_spec(t, 0));
        }
    }
}

/// Every nonzero mask is the dual mask of a nonzero mask.
proof fn lemma_dual_mask_onto(rows: Seq<u8>, v: int)
    requires
        rows.len() == 8,
        gf2_invertible_spec(rows),
        1 <= v < 256,
    ensures
        exists|b: int| 1 <= b < 256 && #[trigger] dual_mask(rows, b as usize) == v,
{
    let t = transpose_rows(rows);
    lemma_transpose_invertible(rows);
    lemma_mat_vec_zero(t);
    lemma_matrix_onto(t, v as u8);
    let y = choose|y: u8| mat_vec_spec(t, y) == v as u8;
    if y == 0 {
        assert(mat_vec_spec(t, y) == 0);
    }
    assert(((y as int) as usize) as u8 == y);
    assert(dual_mask(rows, (y as int) as usize) == v);
}

/// An S-box `A(x^-1) XOR c` with an invertible binary matrix `A` has the
/// linearity (and so the nonlinearity) of the GF(2^8) inversion: its
/// component functions are those of the inversion, relabelled by the
/// invertible `A^T` and complemented by `c`.
pub proof fn lemma_affine_sbox_linearity(rows: Seq<u8>, c: u8)
    requires
        rows.len() == 8,
        gf2_invertible_spec(rows),
    ensures
        linearity_spec(affine_sbox(rows, c)) == linearity_spec(inversion_table()),
{
    let s = affine_sbox(rows, c);
    let i = inversion_table();
    lemma_linearity_below(s, 256);
    lemma_linearity_below(i, 256);
    lemma_dual_mask_nonzero(rows);
    let ls = linearity_spec(s);
    let li = linearity_spec(i);
    if ls != 0 {
        let (a, b) = choose|a: int, b: int|
            0 <= a < 256 && 1 <= b < 256 && #[trigger] lat_deviation(s, a as usize, b as usize) == ls;
        lemma_affine_lat_deviation(rows, c, a as usize, b as usize);
        let d = dual_mask(rows, b as usize);
        assert(1 <= d < 256);
        assert(lat_deviation(i, a as usize, (d as int) as usize) <= li);
    }
    if li != 0 {
        let (a, v) = choose|a: int, v: int|
            0 <= a < 256 && 1 <= v < 256 && #[trigger] lat_deviation(i, a as usize, v as usize) == li;
        lemma_dual_mask_onto(rows, v);
        let b = choose|b: int| 1 <= b < 256 && #[trigger] dual_mask(rows, b as usize) == v;
        lemma_affine_lat_deviation(rows, c, a as usize, b as usize);
        assert(lat_deviation(s, a as usize, b as usize) <= ls);
    }
}

/// Every generated S-box has the linearity and nonlinearity of the
/// GF(2^8) inversion, whatever the key, round and identifier.
pub proof fn lemma_generated_sbox_linearity(key: Seq<u8>, round_number: u32, identifier: Seq<u8>)
    requires
        sbox_derivable(key, round_number, identifier),
    ensures
        linearity_spec(sbox_spec(key, round_number, identifier)) == linearity_spec(inversion_table()),
{
    lemma_affine_matrix_invertible(key, round_number, identifier);
    lemma_affine_sbox_linearity(affine_matrix(key, round_number, identifier), affine_constant(key, round_number, identifier));
}

} // verus!

verus! {

// ============================================================
// Autocorrelation of affine-equivalent S-boxes
// ============================================================

/// Each autocorrelation sum of the affine S-box is the sum of the
/// inversion at the dual output mask: complementing a component flips
/// both signs of every product.
proof fn lemma_affine_ac_sum(rows: Seq<u8>, c: u8, b: usize, a: usize, k: nat)
    requires
        rows.len() == 8,
        b < 256,
        a < 256,
        k <= 256,
    ensures
        autocorrelation_sum(affine_sbox(rows, c), b, a, k) == autocorrelation_sum(
            inversion_table(),
            dual_mask(rows, b),
            a,
            k,
        ),
    decreases k,
{
    if k > 0 {
        lemma_affine_ac_sum(rows, c, b, a, (k - 1) as nat);
        lemma_byte_table_ok(inversion_table());
        let x = (k - 1) as usize;
        assert((x ^ a) < 256);
        lemma_affine_component(rows, c, b, k - 1);
        lemma_affine_component(rows, c, b, (x ^ a) as int);
    }
}

/// The row maximum bounds every `|r(a, b)|` with `1 <= a < m`, and is its
/// floor or one of them.
proof fn lemma_ac_row_max(s: Seq<u8>, b: usize, m: nat, floor: int)
    ensures
        autocorrelation_row_max(s, b, m, floor) >= floor,
        forall|a: int|
            1 <= a < m ==> #[trigger] abs_int(autocorrelation_sum(s, b, a as usize, s.len())) <= autocorrelation_row_max(
                s,
                b,
                m,
                floor,
            ),
        autocorrelation_row_max(s, b, m, floor) == floor || exists|a: int|
            1 <= a < m && #[trigger] abs_int(autocorrelation_sum(s, b, a as usize, s.len())) == autocorrelation_row_max(
                s,
                b,
                m,
                floor,
            ),
    decreases m,
{
    if m > 1 {
        lemma_ac_row_max(s, b, (m - 1) as nat, floor);
        if autocorrelation_row_max(s, b, m, floor) != floor && autocorrelation_row_max(s, b, m, floor)
            != autocorrelation_row_max(s, b, (m - 1) as nat, floor) {
            assert(abs_int(autocorrelation_sum(s, b, (m - 1) as usize, s.len())) == autocorrelation_row_max(
                s,
                b,
                m,
                floor,
            ));
        }
    }
}

/// `|v|`.
pub open spec fn abs_int(v: int) -> int {
    if v < 0 {
        -v
    } else {
        v
    }
}

/// The maximum bounds every `|r(a, b)|` with `a, b` nonzero, and is 0 or
/// one of them.
proof fn lemma_ac_below(s: Seq<u8>, e: nat)
    requires
        s.len() == 256,
        e <= 256,
    ensures
        autocorrelation_below(s, e) >= 0,
        forall|a: int, b: int|
            1 <= a < 256 && 1 <= b < e ==> #[trigger] abs_int(autocorrelation_sum(s, b as usize, a as usize, 256))
                <= autocorrelation_below(s, e),
        autocorrelation_below(s, e) == 0 || exists|a: int, b: int|
            1 <= a < 256 && 1 <= b < e && #[trigger] abs_int(autocorrelation_sum(s, b as usize, a as usize, 256))
                == autocorrelation_below(s, e),
    decreases e,
{
    lemma_autocorrelation_bounds(s, e);
    if e > 1 {
        lemma_ac_below(s, (e - 1) as nat);
        let prev = autocorrelation_below(s, (e - 1) as nat);
        lemma_ac_row_max(s, (e - 1) as usize, 256, prev);
        if autocorrelation_below(s, e) != prev {
            let a = choose|a: int|
                1 <= a < 256 && #[trigger] abs_int(autocorrelation_sum(s, (e - 1) as usize, a as usize, s.len()))
                    == autocorrelation_row_max(s, (e - 1) as usize, 256, prev);
            assert(abs_int(autocorrelation_sum(s, ((e - 1) as int) as usize, a as usize, 256)) == autocorrelation_below(
                s,
                e,
            ));
        }
        assert forall|a: int, b: int| 1 <= a < 256 && 1 <= b < e implies #[trigger] abs_int(
            autocorrelation_sum(s, b as usize, a as usize, 256),
        ) <= autocorrelation_below(s, e) by {
            if b == e - 1 {
                assert(abs_int(autocorrelation_sum(s, (e - 1) as usize, a as usize, s.len())) <= autocorrelation_below(
                    s,
                    e,
                ));
            }
        }
    }
}

/// An S-box `A(x^-1) XOR c` with an invertible binary matrix `A` has the
/// maximum absolute autocorrelation of the GF(2^8) inversion.
pub proof fn lemma_affine_sbox_autocorrelation(rows: Seq<u8>, c: u8)
    requires
        rows.len() == 8,
        gf2_invertible_spec(rows),
    ensures
        autocorrelation_below(affine_sbox(rows, c), 256) == autocorrelation_below(inversion_table(), 256),
{
    let s = affine_sbox(rows, c);
    let i = inversion_table();
    lemma_ac_below(s, 256);
    lemma_ac_below(i, 256);
    lemma_dual_mask_nonzero(rows);
    let rs = autocorrelation_below(s, 256);
    let ri = autocorrelation_below(i, 256);
    if rs != 0 {
        let (a, b) = choose|a: int, b: int|
            1 <= a < 256 && 1 <= b < 256 && #[trigger] abs_int(autocorrelation_sum(s, b as usize, a as usize, 256))
                == rs;
        lemma_affine_ac_sum(rows, c, b as usize, a as usize, 256);
        let d = dual_mask(rows, b as usize);
        assert(1 <= d < 256);
        assert(abs_int(autocorrelation_sum(i, (d as int) as usize, a as usize, 256)) <= ri);
    }
    if ri != 0 {
        let (a, v) = choose|a: int, v: int|
            1 <= a < 256 && 1 <= v < 256 && #[trigger] abs_int(autocorrelation_sum(i, v as usize, a as usize, 256))
                == ri;
        lemma_dual_mask_onto(rows, v);
        let b = choose|b: int| 1 <= b < 256 && #[trigger] dual_mask(rows, b as usize) == v;
        lemma_affine_ac_sum(rows, c, b as usize, a as usize, 256);
        assert(abs_int(autocorrelation_sum(s, b as usize, a as usize, 256)) <= rs);
    }
}

/// Every generated S-box has the maximum absolute autocorrelation of the
/// GF(2^8) inversion, whatever the key, round and identifier.
pub proof fn lemma_generated_sbox_autocorrelation(key: Seq<u8>, round_number: u32, identifier: Seq<u8>)
    requires
        sbox_derivable(key, round_number, identifier),
    ensures
        autocorrelation_below(sbox_spec(key, round_number, identifier), 256) == autocorrelation_below(
            inversion_table(),
            256,
        ),
{
    lemma_affine_matrix_invertible(key, round_number, identifier);
    lemma_affine_sbox_autocorrelation(
        affine_matrix(key, round_number, identifier),
        affine_constant(key, round_number, identifier),
    );
}

} // verus!

verus! {

// ============================================================
// Algebraic degree of affine-equivalent S-boxes
// ============================================================

proof fn lemma_stage_bits(x: usize, k: usize, k1: usize)
    by (bit_vector)
    requires
        x < 256,
        k < 8,
        k1 == k + 1,
    ensures
        (x ^ (1usize << k)) < 256,
        (x & (1usize << k)) != 0 ==> ((x ^ (1usize << k)) & !(!0usize << k)) == (x & !(!0usize << k)),
        (x & (1usize << k)) == 0 ==> (((x & !(!0usize << k1)) == 0) == ((x & !(!0usize << k)) == 0)),
        (x & (1usize << k)) != 0 ==> (x & !(!0usize << k1)) != 0,
        (x & !(!0usize << 0usize)) == 0,
        (x & !(!0usize << 8usize)) == 0 ==> x == 0,
{
}

/// The bits of `x` below position `k` are all zero.
pub open spec fn low_zero(x: int, k: nat) -> bool {
    ((x as usize) & !(!0usize << (k as usize))) == 0
}

/// Entrywise XOR of two tables.
pub open spec fn xor_table(t: Seq<u8>, u: Seq<u8>) -> Seq<u8> {
    Seq::new(t.len(), |x: int| t[x] ^ u[x])
}

/// The all-ones table.
pub open spec fn ones_table() -> Seq<u8> {
    Seq::new(256, |x: int| 1u8)
}

/// The Möbius transform is linear over XOR.
proof fn lemma_mobius_xor(t: Seq<u8>, u: Seq<u8>, k: nat)
    requires
        t.len() == 256,
        u.len() == 256,
        k <= 8,
    ensures
        mobius(xor_table(t, u), k) == xor_table(mobius(t, k), mobius(u, k)),
    decreases k,
{
    if k > 0 {
        lemma_mobius_xor(t, u, (k - 1) as nat);
        let pt = mobius(t, (k - 1) as nat);
        let pu = mobius(u, (k - 1) as nat);
        lemma_mobius_len_256(t, (k - 1) as nat);
        lemma_mobius_len_256(u, (k - 1) as nat);
        let lhs = mobius(xor_table(t, u), k);
        let rhs = xor_table(mobius(t, k), mobius(u, k));
        assert forall|x: int| 0 <= x < 256 implies #[trigger] lhs[x] == rhs[x] by {
            lemma_stage_bits(x as usize, (k - 1) as usize, k as usize);
            let m = 1usize << ((k - 1) as nat as usize);
            if (x as usize) & m != 0 {
                let y = ((x as usize) ^ m) as int;
                lemma_xor_u8_facts(pt[x], pu[x], pt[y], pu[y]);
            }
        }
        assert(lhs =~= rhs);
    }
}

proof fn lemma_mobius_len_256(t: Seq<u8>, k: nat)
    requires
        t.len() == 256,
    ensures
        mobius(t, k).len() == 256,
    decreases k,
{
    if k > 0 {
        lemma_mobius_len_256(t, (k - 1) as nat);
    }
}

/// After `k` stages the all-ones table holds 1 exactly at the indices
/// whose low `k` bits are zero.
proof fn lemma_mobius_ones(k: nat)
    requires
        k <= 8,
    ensures
        forall|x: int| 0 <= x < 256 ==> #[trigger] mobius(ones_table(), k)[x] == if low_zero(x, k) {
            1u8
        } else {
            0u8
        },
    decreases k,
{
    lemma_mobius_len_256(ones_table(), k);
    if k == 0 {
        assert forall|x: int| 0 <= x < 256 implies #[trigger] mobius(ones_table(), k)[x] == if low_zero(x, k) {
            1u8
        } else {
            0u8
        } by {
            lemma_stage_bits(x as usize, 0, 1);
        }
    } else {
        lemma_mobius_ones((k - 1) as nat);
        let p = mobius(ones_table(), (k - 1) as nat);
        lemma_mobius_len_256(ones_table(), (k - 1) as nat);
        assert forall|x: int| 0 <= x < 256 implies #[trigger] mobius(ones_table(), k)[x] == if low_zero(x, k) {
            1u8
        } else {
            0u8
        } by {
            lemma_stage_bits(x as usize, (k - 1) as usize, k as usize);
            let m = 1usize << ((k - 1) as nat as usize);
            if (x as usize) & m != 0 {
                let y = ((x as usize) ^ m) as int;
                assert(low_zero(y, (k - 1) as nat) == low_zero(x, (k - 1) as nat));
                lemma_xor_u8_facts(p[x], 0, 0, 0);
            }
        }
    }
}

/// Degrees read only the nonzero monomials.
proof fn lemma_anf_degree_agree(a1: Seq<u8>, a2: Seq<u8>, m: nat)
    requires
        forall|u: int| 1 <= u < m ==> a1[u] == a2[u],
    ensures
        anf_degree_below(a1, m) == anf_degree_below(a2, m),
    decreases m,
{
    if m > 0 {
        lemma_anf_degree_agree(a1, a2, (m - 1) as nat);
        if m == 1 {
            assert(bit_count(0) == 0);
        }
    }
}

/// Component `b` of the affine S-box has the degree of component `A^T b`
/// of the inversion.
proof fn lemma_affine_component_degree(rows: Seq<u8>, c: u8, b: usize)
    requires
        rows.len() == 8,
        b < 256,
    ensures
        anf_degree_below(mobius(component_table(affine_sbox(rows, c), b), 8), 256) == anf_degree_below(
            mobius(component_table(inversion_table(), dual_mask(rows, b)), 8),
            256,
        ),
{
    let ts = component_table(affine_sbox(rows, c), b);
    let ti = component_table(inversion_table(), dual_mask(rows, b));
    lemma_byte_bit_facts(0, 0, 0, 0);
    if mask_flip(b, c) {
        assert forall|x: int| 0 <= x < 256 implies #[trigger] ts[x] == xor_table(ti, ones_table())[x] by {
            lemma_affine_component(rows, c, b, x);
        }
        assert(ts =~= xor_table(ti, ones_table()));
        lemma_mobius_xor(ti, ones_table(), 8);
        lemma_mobius_ones(8);
        lemma_mobius_len_256(ti, 8);
        let mi = mobius(ti, 8);
        let mo = mobius(ones_table(), 8);
        assert forall|u: int| 1 <= u < 256 implies mobius(ts, 8)[u] == mi[u] by {
            lemma_stage_bits(u as usize, 0, 1);
            assert(!low_zero(u, 8));
            assert(mo[u] == 0);
            lemma_xor_u8_facts(mi[u], 0, 0, 0);
        }
        lemma_anf_degree_agree(mobius(ts, 8), mi, 256);
    } else {
        assert forall|x: int| 0 <= x < 256 implies #[trigger] ts[x] == ti[x] by {
            lemma_affine_component(rows, c, b, x);
        }
        assert(ts =~= ti);
    }
}

/// The largest component degree bounds every component degree and is 0
/// or one of them.
proof fn lemma_degree_below(s: Seq<u8>, e: nat)
    requires
        e <= 256,
    ensures
        forall|b: int|
            1 <= b < e ==> #[trigger] anf_degree_below(mobius(component_table(s, b as usize), 8), 256)
                <= algebraic_degree_below(s, e),
        algebraic_degree_below(s, e) == 0 || exists|b: int|
            1 <= b < e && #[trigger] anf_degree_below(mobius(component_table(s, b as usize), 8), 256)
                == algebraic_degree_below(s, e),
    decreases e,
{
    if e > 1 {
        lemma_degree_below(s, (e - 1) as nat);
        assert(anf_degree_below(mobius(component_table(s, ((e - 1) as int) as usize), 8), 256) <= algebraic_degree_below(
            s,
            e,
        ));
    }
}

/// An S-box `A(x^-1) XOR c` with an invertible binary matrix `A` has the
/// algebraic degree of the GF(2^8) inversion: its components are those
/// of the inversion relabelled by `A^T`, up to a constant, which changes
/// no monomial of positive degree.
pub proof fn lemma_affine_sbox_degree(rows: Seq<u8>, c: u8)
    requires
        rows.len() == 8,
        gf2_invertible_spec(rows),
    ensures
        algebraic_degree_below(affine_sbox(rows, c), 256) == algebraic_degree_below(inversion_table(), 256),
{
    let s = affine_sbox(rows, c);
    let i = inversion_table();
    lemma_degree_below(s, 256);
    lemma_degree_below(i, 256);
    lemma_dual_mask_nonzero(rows);
    let ds = algebraic_degree_below(s, 256);
    let di = algebraic_degree_below(i, 256);
    if ds != 0 {
        let b = choose|b: int|
            1 <= b < 256 && #[trigger] anf_degree_below(mobius(component_table(s, b as usize), 8), 256) == ds;
        lemma_affine_component_degree(rows, c, b as usize);
        let d = dual_mask(rows, b as usize);
        assert(1 <= d < 256);
        assert(anf_degree_below(mobius(component_table(i, (d as int) as usize), 8), 256) <= di);
    }
    if di != 0 {
        let v = choose|v: int|
            1 <= v < 256 && #[trigger] anf_degree_below(mobius(component_table(i, v as usize), 8), 256) == di;
        lemma_dual_mask_onto(rows, v);
        let b = choose|b: int| 1 <= b < 256 && #[trigger] dual_mask(rows, b as usize) == v;
        lemma_affine_component_degree(rows, c, b as usize);
        assert(anf_degree_below(mobius(component_table(s, b as usize), 8), 256) <= ds);
    }
}

/// Every generated S-box has the algebraic degree of the GF(2^8)
/// inversion, whatever the key, round and identifier.
pub proof fn lemma_generated_sbox_degree(key: Seq<u8>, round_number: u32, identifier: Seq<u8>)
    requires
        sbox_derivable(key, round_number, identifier),
    ensures
        algebraic_degree_below(sbox_spec(key, round_number, identifier), 256) == algebraic_degree_below(
            inversion_table(),
            256,
        ),
{
    lemma_affine_matrix_invertible(key, round_number, identifier);
    lemma_affine_sbox_degree(affine_matrix(key, round_number, identifier), affine_constant(key, round_number, identifier));
}

} // verus!
