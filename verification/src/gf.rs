//! Arithmetic over GF(2^8) (AES reduction polynomial 0x11B) and 8x8
//! matrices over GF(2) packed one row per byte.

use vstd::prelude::*;

verus! {

// ============================================================
// GF(2^8) multiplication
// ============================================================

/// Multiplication by x (`{02}`): shift left, reduce by 0x1B on carry.
pub open spec fn xtime(a: u8) -> u8 {
    if a & 0x80u8 != 0 {
        ((a << 1u8) ^ 0x1bu8) as u8
    } else {
        (a << 1u8) as u8
    }
}

/// `a * x^i` in GF(2^8).
pub open spec fn xtime_pow(a: u8, i: nat) -> u8
    decreases i,
{
    if i == 0 {
        a
    } else {
        xtime(xtime_pow(a, (i - 1) as nat))
    }
}

/// The XOR of `a * x^k` over the set bits `k < i` of `b`.
pub open spec fn gf_mul_partial(a: u8, b: u8, i: nat) -> u8
    decreases i,
{
    if i == 0 {
        0
    } else {
        let k = (i - 1) as nat;
        let term: u8 = if (b >> (k as u8)) & 1u8 != 0 { xtime_pow(a, k) } else { 0u8 };
        gf_mul_partial(a, b, k) ^ term
    }
}

/// Selects and XORs the multiples `a_k` for the set bits `k` of `b`.
pub open spec fn select_xor(
    b: u8,
    a0: u8,
    a1: u8,
    a2: u8,
    a3: u8,
    a4: u8,
    a5: u8,
    a6: u8,
    a7: u8,
) -> u8 {
    0u8 ^ (if (b >> 0u8) & 1u8 != 0 { a0 } else { 0u8 }) ^ (if (b >> 1u8) & 1u8 != 0 {
        a1
    } else {
        0u8
    }) ^ (if (b >> 2u8) & 1u8 != 0 { a2 } else { 0u8 }) ^ (if (b >> 3u8) & 1u8 != 0 {
        a3
    } else {
        0u8
    }) ^ (if (b >> 4u8) & 1u8 != 0 { a4 } else { 0u8 }) ^ (if (b >> 5u8) & 1u8 != 0 {
        a5
    } else {
        0u8
    }) ^ (if (b >> 6u8) & 1u8 != 0 { a6 } else { 0u8 }) ^ (if (b >> 7u8) & 1u8 != 0 {
        a7
    } else {
        0u8
    })
}

/// Product in GF(2^8): the XOR, over the set bits `k` of `b`, of `a * x^k`.
pub open spec fn gf_mul_spec(a: u8, b: u8) -> u8 {
    let a1 = xtime(a);
    let a2 = xtime(a1);
    let a3 = xtime(a2);
    let a4 = xtime(a3);
    let a5 = xtime(a4);
    let a6 = xtime(a5);
    let a7 = xtime(a6);
    select_xor(b, a, a1, a2, a3, a4, a5, a6, a7)
}

proof fn lemma_gf_mul_partial_full(a: u8, b: u8)
    ensures
        gf_mul_partial(a, b, 8) == gf_mul_spec(a, b),
{
    reveal_with_fuel(gf_mul_partial, 9);
    reveal_with_fuel(xtime_pow, 9);
}

proof fn lemma_shr_step(b: u8, i: u8)
    by (bit_vector)
    ensures
        b >> 0u8 == b,
        i < 8 ==> (b >> i) >> 1u8 == b >> ((i + 1) as u8),
{
}

/// Multiplication in GF(2^8) under the AES reduction polynomial.
pub fn gf_mul(a: u8, b: u8) -> (r: u8)
    ensures
        r == gf_mul_spec(a, b),
{
    let ghost a0 = a;
    let ghost b0 = b;
    let mut result: u8 = 0;
    let mut a = a;
    let mut b = b;
    let mut i: u8 = 0;
    proof {
        lemma_shr_step(b0, 0);
    }
    while i < 8
        invariant
            i <= 8,
            result == gf_mul_partial(a0, b0, i as nat),
            a == xtime_pow(a0, i as nat),
            b == b0 >> i,
        decreases 8 - i,
    {
        proof {
            assert((i as nat) as u8 == i);
            lemma_shr_step(b0, i);
        }
        if b & 1 != 0 {
            result ^= a;
        } else {
            proof {
                lemma_xor_self(result);
            }
        }
        let high_bit = a & 0x80;
        a <<= 1;
        if high_bit != 0 {
            a ^= 0x1B;
        }
        proof {
            let ghost ai = xtime_pow(a0, i as nat);
            assert(a == xtime(ai)) by {
                assert(high_bit == ai & 0x80u8);
            }
            lemma_shr_step(b0, i);
        }
        b >>= 1;
        i += 1;
    }
    proof {
        lemma_gf_mul_partial_full(a0, b0);
    }
    result
}

// ============================================================
// Algebraic facts about GF(2^8) multiplication
// ============================================================

/// Zero is absorbing on either side.
pub proof fn lemma_gf_mul_zero(a: u8)
    ensures
        gf_mul_spec(a, 0) == 0,
        gf_mul_spec(0, a) == 0,
{
    assert(gf_mul_spec(a, 0) == 0 && gf_mul_spec(0, a) == 0) by (bit_vector);
}

/// Multiplication distributes over XOR in the first factor.
pub proof fn lemma_gf_mul_xor_left(x: u8, y: u8, c: u8)
    ensures
        gf_mul_spec(x ^ y, c) == gf_mul_spec(x, c) ^ gf_mul_spec(y, c),
{
    lemma_xtime_xor(x, y);
    lemma_xtime_xor(xtime(x), xtime(y));
    lemma_xtime_xor(xtime(xtime(x)), xtime(xtime(y)));
    lemma_xtime_xor(xtime(xtime(xtime(x))), xtime(xtime(xtime(y))));
    lemma_xtime_xor(xtime(xtime(xtime(xtime(x)))), xtime(xtime(xtime(xtime(y)))));
    lemma_xtime_xor(xtime(xtime(xtime(xtime(xtime(x))))), xtime(xtime(xtime(xtime(xtime(y))))));
    lemma_xtime_xor(
        xtime(xtime(xtime(xtime(xtime(xtime(x)))))),
        xtime(xtime(xtime(xtime(xtime(xtime(y)))))),
    );
    let x1 = xtime(x);
    let x2 = xtime(x1);
    let x3 = xtime(x2);
    let x4 = xtime(x3);
    let x5 = xtime(x4);
    let x6 = xtime(x5);
    let x7 = xtime(x6);
    let y1 = xtime(y);
    let y2 = xtime(y1);
    let y3 = xtime(y2);
    let y4 = xtime(y3);
    let y5 = xtime(y4);
    let y6 = xtime(y5);
    let y7 = xtime(y6);
    lemma_select_xor_linear(c, x, x1, x2, x3, x4, x5, x6, x7, y, y1, y2, y3, y4, y5, y6, y7);
}

proof fn lemma_xtime_xor(x: u8, y: u8)
    ensures
        xtime(x ^ y) == xtime(x) ^ xtime(y),
{
    assert(xtime(x ^ y) == xtime(x) ^ xtime(y)) by (bit_vector);
}

proof fn lemma_select_xor_linear(
    c: u8,
    x0: u8,
    x1: u8,
    x2: u8,
    x3: u8,
    x4: u8,
    x5: u8,
    x6: u8,
    x7: u8,
    y0: u8,
    y1: u8,
    y2: u8,
    y3: u8,
    y4: u8,
    y5: u8,
    y6: u8,
    y7: u8,
)
    ensures
        select_xor(c, x0 ^ y0, x1 ^ y1, x2 ^ y2, x3 ^ y3, x4 ^ y4, x5 ^ y5, x6 ^ y6, x7 ^ y7)
            == select_xor(c, x0, x1, x2, x3, x4, x5, x6, x7) ^ select_xor(
            c,
            y0,
            y1,
            y2,
            y3,
            y4,
            y5,
            y6,
            y7,
        ),
{
    assert(select_xor(c, x0 ^ y0, x1 ^ y1, x2 ^ y2, x3 ^ y3, x4 ^ y4, x5 ^ y5, x6 ^ y6, x7 ^ y7)
        == select_xor(c, x0, x1, x2, x3, x4, x5, x6, x7) ^ select_xor(
        c,
        y0,
        y1,
        y2,
        y3,
        y4,
        y5,
        y6,
        y7,
    )) by (bit_vector);
}

/// Multiplication distributes over XOR in the second factor.
pub proof fn lemma_gf_mul_xor_right(c: u8, x: u8, y: u8)
    ensures
        gf_mul_spec(c, x ^ y) == gf_mul_spec(c, x) ^ gf_mul_spec(c, y),
{
    assert(gf_mul_spec(c, x ^ y) == gf_mul_spec(c, x) ^ gf_mul_spec(c, y)) by (bit_vector);
}

/// Multiplication is commutative, has unit 1, and multiplying a factor by
/// `x` multiplies the product by `x`.
proof fn lemma_gf_mul_basic(a: u8, b: u8)
    by (bit_vector)
    ensures
        gf_mul_spec(1, b) == b,
        gf_mul_spec(xtime(a), b) == xtime(gf_mul_spec(a, b)),
        xtime(1u8) == 2u8,
        xtime(2u8) == 4u8,
        xtime(4u8) == 8u8,
        xtime(8u8) == 16u8,
        xtime(16u8) == 32u8,
        xtime(32u8) == 64u8,
        xtime(64u8) == 128u8,
{
}

/// The unit byte `2^k` times `b` is `b * x^k`.
proof fn lemma_gf_mul_unit(b: u8, k: nat)
    requires
        k < 8,
    ensures
        gf_mul_spec(crate::affine::unit_byte(k as int), b) == xtime_pow(b, k),
    decreases k,
{
    lemma_gf_mul_basic(1, b);
    if k > 0 {
        lemma_gf_mul_unit(b, (k - 1) as nat);
        lemma_gf_mul_basic(crate::affine::unit_byte(k - 1), b);
    }
}

/// `(b * x^k) * c = (b * c) * x^k`.
proof fn lemma_gf_mul_xtime_pow(b: u8, c: u8, k: nat)
    ensures
        gf_mul_spec(xtime_pow(b, k), c) == xtime_pow(gf_mul_spec(b, c), k),
    decreases k,
{
    if k > 0 {
        lemma_gf_mul_xtime_pow(b, c, (k - 1) as nat);
        lemma_gf_mul_basic(xtime_pow(b, (k - 1) as nat), c);
    }
}

/// The low bits of `a` times `b` select the multiples of `b` by `a`'s bits.
proof fn lemma_gf_mul_low_bits(a: u8, b: u8, k: nat)
    requires
        k <= 8,
    ensures
        gf_mul_spec(crate::affine::low_bits(a, k), b) == gf_mul_partial(b, a, k),
    decreases k,
{
    lemma_gf_mul_zero(b);
    if k > 0 {
        lemma_gf_mul_low_bits(a, b, (k - 1) as nat);
        let l = crate::affine::low_bits(a, (k - 1) as nat);
        let e = crate::affine::unit_byte(k - 1);
        let d = a & e;
        lemma_gf_mul_xor_left(l, d, b);
        crate::affine::lemma_byte_bit_facts(0, 0, 0, a);
        lemma_gf_mul_basic(a, b);
        lemma_gf_mul_zero(b);
        if d != 0 {
            assert(d == e);
            lemma_gf_mul_unit(b, (k - 1) as nat);
        }
    }
}

proof fn lemma_low_bits_all(a: u8)
    ensures
        crate::affine::low_bits(a, 8) == a,
{
    crate::affine::lemma_byte_bit_facts(0, 0, 0, a);
    reveal_with_fuel(crate::affine::low_bits, 9);
}

/// Multiplication is commutative.
pub proof fn lemma_gf_mul_commutative(a: u8, b: u8)
    ensures
        gf_mul_spec(a, b) == gf_mul_spec(b, a),
{
    lemma_gf_mul_low_bits(a, b, 8);
    lemma_low_bits_all(a);
    lemma_gf_mul_partial_full(b, a);
}

/// 1 is the unit of multiplication.
pub proof fn lemma_gf_mul_one(a: u8)
    ensures
        gf_mul_spec(a, 1) == a,
        gf_mul_spec(1, a) == a,
{
    lemma_gf_mul_basic(0, a);
    lemma_gf_mul_commutative(a, 1);
}

proof fn lemma_gf_mul_assoc_low_bits(a: u8, b: u8, c: u8, k: nat)
    requires
        k <= 8,
    ensures
        gf_mul_spec(gf_mul_spec(crate::affine::low_bits(a, k), b), c) == gf_mul_spec(
            crate::affine::low_bits(a, k),
            gf_mul_spec(b, c),
        ),
    decreases k,
{
    let bc = gf_mul_spec(b, c);
    lemma_gf_mul_zero(b);
    lemma_gf_mul_zero(c);
    lemma_gf_mul_zero(bc);
    if k > 0 {
        lemma_gf_mul_assoc_low_bits(a, b, c, (k - 1) as nat);
        let l = crate::affine::low_bits(a, (k - 1) as nat);
        let e = crate::affine::unit_byte(k - 1);
        let d = a & e;
        lemma_gf_mul_xor_left(l, d, b);
        lemma_gf_mul_xor_left(gf_mul_spec(l, b), gf_mul_spec(d, b), c);
        lemma_gf_mul_xor_left(l, d, bc);
        crate::affine::lemma_byte_bit_facts(0, 0, 0, a);
        if d != 0 {
            assert(d == e);
            lemma_gf_mul_unit(b, (k - 1) as nat);
            lemma_gf_mul_unit(bc, (k - 1) as nat);
            lemma_gf_mul_xtime_pow(b, c, (k - 1) as nat);
        }
    }
}

/// Multiplication is associative.
pub proof fn lemma_gf_mul_associative(a: u8, b: u8, c: u8)
    ensures
        gf_mul_spec(gf_mul_spec(a, b), c) == gf_mul_spec(a, gf_mul_spec(b, c)),
{
    lemma_gf_mul_assoc_low_bits(a, b, c, 8);
    lemma_low_bits_all(a);
}

/// GF(2^8) has no zero divisors.
pub proof fn lemma_gf_mul_no_zero_divisors(a: u8, b: u8)
    requires
        a != 0,
        b != 0,
    ensures
        gf_mul_spec(a, b) != 0,
{
    assert(a != 0 && b != 0 ==> gf_mul_spec(a, b) != 0) by (bit_vector);
}

} // verus!

verus! {

// ============================================================
// Byte maps: injective implies surjective
// ============================================================

/// A byte map is injective.
pub open spec fn byte_map_injective(f: spec_fn(u8) -> u8) -> bool {
    forall|x: u8, y: u8| #[trigger] f(x) == #[trigger] f(y) ==> x == y
}

/// An injective map from bytes to bytes reaches every byte.
pub proof fn lemma_byte_map_injective_surjective(f: spec_fn(u8) -> u8, y: u8)
    requires
        byte_map_injective(f),
    ensures
        exists|x: u8| #[trigger] f(x) == y,
{
    let dom = vstd::set_lib::set_int_range(0, 256);
    let g = |i: int| f(i as u8) as int;
    vstd::set_lib::lemma_int_range(0, 256);
    assert(vstd::relations::injective_on(g, dom)) by {
        assert forall|i: int, j: int| dom.contains(i) && dom.contains(j) && #[trigger] g(i) == #[trigger] g(j)
            implies i == j by {
            assert(f(i as u8) == f(j as u8));
        }
    }
    let img = dom.map(g);
    vstd::set_lib::lemma_map_size(dom, img, g);
    assert(img.subset_of(dom)) by {
        assert forall|v: int| img.contains(v) implies dom.contains(v) by {
            let i = choose|i: int| dom.contains(i) && g(i) == v;
            assert(0 <= f(i as u8) < 256);
        }
    }
    vstd::set_lib::lemma_subset_equality(img, dom);
    assert(dom.contains(y as int));
    assert(img.contains(y as int));
    let i = choose|i: int| dom.contains(i) && g(i) == y as int;
    assert(f(i as u8) == y);
}

// ============================================================
// Multiplicative inverses
// ============================================================

/// Multiplication by a nonzero element is injective.
pub proof fn lemma_gf_mul_cancel(a: u8, x: u8, y: u8)
    requires
        a != 0,
        gf_mul_spec(a, x) == gf_mul_spec(a, y),
    ensures
        x == y,
{
    lemma_gf_mul_xor_right(a, x, y);
    lemma_xor_self(gf_mul_spec(a, x));
    if x ^ y != 0 {
        lemma_gf_mul_no_zero_divisors(a, x ^ y);
    }
    lemma_xor_zero_eq(x, y);
}

/// Every nonzero element has a multiplicative inverse.
pub proof fn lemma_gf_inverse_exists(a: u8)
    requires
        a != 0,
    ensures
        exists|b: u8| gf_mul_spec(a, b) == 1,
{
    let f = |x: u8| gf_mul_spec(a, x);
    assert forall|x: u8, y: u8| #[trigger] f(x) == #[trigger] f(y) implies x == y by {
        lemma_gf_mul_cancel(a, x, y);
    }
    lemma_byte_map_injective_surjective(f, 1);
    let b = choose|b: u8| #[trigger] f(b) == 1;
    assert(gf_mul_spec(a, b) == 1);
}

} // verus!

verus! {

/// The multiplicative inverse in GF(2^8), with `0` mapped to `0`.
pub open spec fn gf_inv_spec(a: u8) -> u8 {
    if a == 0 {
        0
    } else {
        choose|b: u8| gf_mul_spec(a, b) == 1
    }
}

/// A nonzero element's inverse is its unique partner with product 1,
/// and is itself nonzero.
pub proof fn lemma_gf_inv(a: u8, b: u8)
    requires
        a != 0,
    ensures
        gf_mul_spec(a, gf_inv_spec(a)) == 1,
        gf_inv_spec(a) != 0,
        gf_mul_spec(a, b) == 1 ==> b == gf_inv_spec(a),
{
    lemma_gf_inverse_exists(a);
    let c = gf_inv_spec(a);
    lemma_gf_mul_zero(a);
    if gf_mul_spec(a, b) == 1 {
        lemma_gf_mul_cancel(a, b, c);
    }
}

/// Inversion is injective on bytes.
pub proof fn lemma_gf_inv_injective(x: u8, y: u8)
    requires
        gf_inv_spec(x) == gf_inv_spec(y),
    ensures
        x == y,
{
    if x != 0 && y != 0 {
        let c = gf_inv_spec(x);
        lemma_gf_inv(x, c);
        lemma_gf_inv(y, c);
        lemma_gf_mul_xor_left(x, y, c);
        lemma_xor_self(1u8);
        if x ^ y != 0 {
            lemma_gf_mul_no_zero_divisors(x ^ y, c);
        }
        lemma_xor_zero_eq(x, y);
    } else if x != 0 {
        lemma_gf_inv(x, 0);
    } else if y != 0 {
        lemma_gf_inv(y, 0);
    }
}

/// Finds the inverse of a nonzero `a` by search.
fn gf_inverse_search(a: u8) -> (b: u8)
    requires
        a != 0,
    ensures
        b == gf_inv_spec(a),
{
    let mut b: u16 = 1;
    while b < 256
        invariant
            1 <= b <= 256,
            a != 0,
            forall|c: u8| 1 <= c < b ==> gf_mul_spec(a, c) != 1,
        decreases 256 - b,
    {
        if gf_mul(a, b as u8) == 1 {
            proof {
                lemma_gf_inv(a, b as u8);
            }
            return b as u8;
        }
        b += 1;
    }
    proof {
        lemma_gf_inv(a, 0);
        lemma_gf_mul_zero(a);
        let c = gf_inv_spec(a);
        assert(1 <= c < 256);
        assert(false);
    }
    0
}

/// The 256-entry multiplicative inverse table over GF(2^8), `inv[0] = 0`.
/// `t` lists the inverse of every byte.
pub open spec fn is_inverse_table(t: Seq<u8>) -> bool {
    &&& t.len() == 256
    &&& forall|i: int| 0 <= i < 256 ==> #[trigger] t[i] == gf_inv_spec(i as u8)
}

pub fn gf256_inverse_table() -> (table: Vec<u8>)
    ensures
        table@.len() == 256,
        forall|i: int| 0 <= i < 256 ==> #[trigger] table@[i] == gf_inv_spec(i as u8),
        is_inverse_table(table@),
{
    let mut table: Vec<u8> = Vec::new();
    table.push(0);
    let mut a: u16 = 1;
    while a < 256
        invariant
            1 <= a <= 256,
            table@.len() == a,
            forall|i: int| 0 <= i < a ==> #[trigger] table@[i] == gf_inv_spec(i as u8),
        decreases 256 - a,
    {
        let b = gf_inverse_search(a as u8);
        table.push(b);
        a += 1;
    }
    table
}

} // verus!

verus! {

// ============================================================
// 8x8 matrices over GF(2), one row packed per byte
// ============================================================

/// Parity (XOR of all bits) of a byte, as 0 or 1.
pub open spec fn parity8(x: u8) -> u8 {
    (x ^ (x >> 1u8) ^ (x >> 2u8) ^ (x >> 3u8) ^ (x >> 4u8) ^ (x >> 5u8) ^ (x >> 6u8) ^ (x
        >> 7u8)) & 1u8
}

/// Bit `i` of the product `rows * y` over GF(2).
pub open spec fn mat_row_bit(rows: Seq<u8>, y: u8, i: int) -> u8 {
    parity8(rows[i] & y)
}

/// The matrix-vector product over GF(2): bit `i` of the result is the
/// parity of `rows[i] AND y`.
pub open spec fn mat_vec_spec(rows: Seq<u8>, y: u8) -> u8 {
    mat_row_bit(rows, y, 0) | (mat_row_bit(rows, y, 1) << 1u8) | (mat_row_bit(rows, y, 2) << 2u8)
        | (mat_row_bit(rows, y, 3) << 3u8) | (mat_row_bit(rows, y, 4) << 4u8) | (mat_row_bit(
        rows,
        y,
        5,
    ) << 5u8) | (mat_row_bit(rows, y, 6) << 6u8) | (mat_row_bit(rows, y, 7) << 7u8)
}

/// The matrix defines an injective (hence bijective) map on bytes.
pub open spec fn gf2_invertible_spec(rows: Seq<u8>) -> bool {
    forall|x: u8, y: u8| #[trigger]
        mat_vec_spec(rows, x) == #[trigger] mat_vec_spec(rows, y) ==> x == y
}

spec fn mat_vec_partial(rows: Seq<u8>, y: u8, i: nat) -> u8
    decreases i,
{
    if i == 0 {
        0
    } else {
        mat_vec_partial(rows, y, (i - 1) as nat) | (mat_row_bit(rows, y, i - 1) << ((i - 1) as u8))
    }
}

/// Parity of a byte, computed bit by bit.
fn parity_u8(x: u8) -> (p: u8)
    ensures
        p == parity8(x),
{
    (x ^ (x >> 1) ^ (x >> 2) ^ (x >> 3) ^ (x >> 4) ^ (x >> 5) ^ (x >> 6) ^ (x >> 7)) & 1
}

/// Matrix-vector product over GF(2): result bit i = parity(rows[i] AND y).
pub fn matrix_vec_mul_gf2(rows: &[u8; 8], y: u8) -> (r: u8)
    ensures
        r == mat_vec_spec(rows@, y),
{
    let mut result: u8 = 0;
    let mut i: usize = 0;
    while i < 8
        invariant
            i <= 8,
            result == mat_vec_partial(rows@, y, i as nat),
        decreases 8 - i,
    {
        let parity = parity_u8(rows[i] & y);
        result |= parity << (i as u8);
        i += 1;
    }
    proof {
        reveal_with_fuel(mat_vec_partial, 9);
        let t = mat_row_bit(rows@, y, 0);
        assert(0u8 | (t << 0u8) == t) by (bit_vector);
    }
    result
}

} // verus!

verus! {

/// Bit `c` of `x` is set.
pub open spec fn bit_of(x: u8, c: int) -> bool {
    (x >> (c as u8)) & 1u8 == 1u8
}

/// `y` is in the kernel of the GF(2) matrix given by the first 8 rows.
pub open spec fn in_kernel(m: Seq<u8>, y: u8) -> bool {
    forall|i: int| 0 <= i < 8 ==> #[trigger] parity8(m[i] & y) == 0
}

pub(crate) proof fn lemma_parity_xor(a: u8, b: u8, y: u8)
    by (bit_vector)
    ensures
        parity8((a ^ b) & y) == parity8(a & y) ^ parity8(b & y),
        parity8(a & (b ^ y)) == parity8(a & b) ^ parity8(a & y),
        parity8(a & y) <= 1,
        parity8(a & 0u8) == 0,
        parity8(0u8 & y) == 0,
{
}

proof fn lemma_bit_of_xor(a: u8, b: u8, c: u8)
    requires
        c < 8,
    ensures
        bit_of(a ^ b, c as int) == (bit_of(a, c as int) != bit_of(b, c as int)),
{
    assert(((a ^ b) >> c) & 1u8 == 1u8 <==> (((a >> c) & 1u8 == 1u8) != ((b >> c) & 1u8 == 1u8)))
        by (bit_vector)
        requires
            c < 8,
    ;
}

proof fn lemma_mask_bit(x: u8, c: u8)
    requires
        c < 8,
    ensures
        (x & (1u8 << c) == 0) == !bit_of(x, c as int),
{
    assert((x & (1u8 << c) == 0) == !((x >> c) & 1u8 == 1u8)) by (bit_vector)
        requires
            c < 8,
    ;
}

proof fn lemma_bits_clear_zero(x: u8)
    requires
        forall|c: int| 0 <= c < 8 ==> !bit_of(x, c),
    ensures
        x == 0,
{
    assert(!bit_of(x, 0) && !bit_of(x, 1) && !bit_of(x, 2) && !bit_of(x, 3));
    assert(!bit_of(x, 4) && !bit_of(x, 5) && !bit_of(x, 6) && !bit_of(x, 7));
    assert(((x >> 0u8) & 1u8 != 1u8) && ((x >> 1u8) & 1u8 != 1u8) && ((x >> 2u8) & 1u8 != 1u8) && ((x
        >> 3u8) & 1u8 != 1u8) && ((x >> 4u8) & 1u8 != 1u8) && ((x >> 5u8) & 1u8 != 1u8) && ((x
        >> 6u8) & 1u8 != 1u8) && ((x >> 7u8) & 1u8 != 1u8) ==> x == 0) by (bit_vector);
}

proof fn lemma_nonzero_has_bit(y: u8) -> (c: int)
    requires
        y != 0,
    ensures
        0 <= c < 8,
        bit_of(y, c),
{
    assert(y != 0 ==> ((y >> 0u8) & 1u8 == 1u8) || ((y >> 1u8) & 1u8 == 1u8) || ((y >> 2u8) & 1u8
        == 1u8) || ((y >> 3u8) & 1u8 == 1u8) || ((y >> 4u8) & 1u8 == 1u8) || ((y >> 5u8) & 1u8
        == 1u8) || ((y >> 6u8) & 1u8 == 1u8) || ((y >> 7u8) & 1u8 == 1u8)) by (bit_vector);
    if bit_of(y, 0) {
        0
    } else if bit_of(y, 1) {
        1
    } else if bit_of(y, 2) {
        2
    } else if bit_of(y, 3) {
        3
    } else if bit_of(y, 4) {
        4
    } else if bit_of(y, 5) {
        5
    } else if bit_of(y, 6) {
        6
    } else {
        7
    }
}

/// A row holding only bit `c` picks out bit `c` of `y`.
proof fn lemma_single_bit_row(x: u8, c: u8, y: u8)
    requires
        c < 8,
        bit_of(x, c as int),
        forall|d: int| 0 <= d < 8 && d != c ==> !bit_of(x, d),
        bit_of(y, c as int),
    ensures
        parity8(x & y) == 1,
{
    let mask: u8 = 1u8 << c;
    assert forall|d: int| 0 <= d < 8 implies bit_of(x, d) == bit_of(mask, d) by {
        let du = d as u8;
        assert(((1u8 << c) >> du) & 1u8 == 1u8 <==> du == c) by (bit_vector)
            requires
                c < 8,
                du < 8,
        ;
    }
    assert(x == mask) by {
        lemma_bit_of_xor(x, mask, 0);
        lemma_bit_of_xor(x, mask, 1);
        lemma_bit_of_xor(x, mask, 2);
        lemma_bit_of_xor(x, mask, 3);
        lemma_bit_of_xor(x, mask, 4);
        lemma_bit_of_xor(x, mask, 5);
        lemma_bit_of_xor(x, mask, 6);
        lemma_bit_of_xor(x, mask, 7);
        lemma_bits_clear_zero(x ^ mask);
        lemma_xor_zero_eq(x, mask);
    }
    assert(((y >> c) & 1u8 == 1u8) ==> parity8((1u8 << c) & y) == 1) by (bit_vector)
        requires
            c < 8,
    ;
}

proof fn lemma_mat_vec_zero_iff_kernel(m: Seq<u8>, y: u8)
    requires
        m.len() == 8,
    ensures
        (mat_vec_spec(m, y) == 0) == in_kernel(m, y),
{
    let p0 = mat_row_bit(m, y, 0);
    let p1 = mat_row_bit(m, y, 1);
    let p2 = mat_row_bit(m, y, 2);
    let p3 = mat_row_bit(m, y, 3);
    let p4 = mat_row_bit(m, y, 4);
    let p5 = mat_row_bit(m, y, 5);
    let p6 = mat_row_bit(m, y, 6);
    let p7 = mat_row_bit(m, y, 7);
    lemma_parity_xor(m[0], 0, y);
    lemma_parity_xor(m[1], 0, y);
    lemma_parity_xor(m[2], 0, y);
    lemma_parity_xor(m[3], 0, y);
    lemma_parity_xor(m[4], 0, y);
    lemma_parity_xor(m[5], 0, y);
    lemma_parity_xor(m[6], 0, y);
    lemma_parity_xor(m[7], 0, y);
    lemma_or8_zero(p0, p1, p2, p3, p4, p5, p6, p7);
    if p0 == 0 && p1 == 0 && p2 == 0 && p3 == 0 && p4 == 0 && p5 == 0 && p6 == 0 && p7 == 0 {
        assert forall|i: int| 0 <= i < 8 implies #[trigger] parity8(m[i] & y) == 0 by {
            assert(parity8(m[i] & y) == mat_row_bit(m, y, i));
        }
    }
}

pub(crate) proof fn lemma_mat_vec_xor(m: Seq<u8>, x: u8, y: u8)
    requires
        m.len() == 8,
    ensures
        mat_vec_spec(m, x ^ y) == mat_vec_spec(m, x) ^ mat_vec_spec(m, y),
{
    lemma_parity_xor(m[0], 0, x);
    lemma_parity_xor(m[1], 0, x);
    lemma_parity_xor(m[2], 0, x);
    lemma_parity_xor(m[3], 0, x);
    lemma_parity_xor(m[4], 0, x);
    lemma_parity_xor(m[5], 0, x);
    lemma_parity_xor(m[6], 0, x);
    lemma_parity_xor(m[7], 0, x);
    lemma_parity_xor(m[0], 0, y);
    lemma_parity_xor(m[1], 0, y);
    lemma_parity_xor(m[2], 0, y);
    lemma_parity_xor(m[3], 0, y);
    lemma_parity_xor(m[4], 0, y);
    lemma_parity_xor(m[5], 0, y);
    lemma_parity_xor(m[6], 0, y);
    lemma_parity_xor(m[7], 0, y);
    let r0 = m[0];
    let r1 = m[1];
    let r2 = m[2];
    let r3 = m[3];
    let r4 = m[4];
    let r5 = m[5];
    let r6 = m[6];
    let r7 = m[7];
    lemma_parity_xor(r0, x, y);
    lemma_parity_xor(r1, x, y);
    lemma_parity_xor(r2, x, y);
    lemma_parity_xor(r3, x, y);
    lemma_parity_xor(r4, x, y);
    lemma_parity_xor(r5, x, y);
    lemma_parity_xor(r6, x, y);
    lemma_parity_xor(r7, x, y);
    let a0 = parity8(r0 & x);
    let a1 = parity8(r1 & x);
    let a2 = parity8(r2 & x);
    let a3 = parity8(r3 & x);
    let a4 = parity8(r4 & x);
    let a5 = parity8(r5 & x);
    let a6 = parity8(r6 & x);
    let a7 = parity8(r7 & x);
    let b0 = parity8(r0 & y);
    let b1 = parity8(r1 & y);
    let b2 = parity8(r2 & y);
    let b3 = parity8(r3 & y);
    let b4 = parity8(r4 & y);
    let b5 = parity8(r5 & y);
    let b6 = parity8(r6 & y);
    let b7 = parity8(r7 & y);
    lemma_or8_xor(a0, a1, a2, a3, a4, a5, a6, a7, b0, b1, b2, b3, b4, b5, b6, b7);
}

proof fn lemma_or8_zero(p0: u8, p1: u8, p2: u8, p3: u8, p4: u8, p5: u8, p6: u8, p7: u8)
    requires
        p0 <= 1 && p1 <= 1 && p2 <= 1 && p3 <= 1 && p4 <= 1 && p5 <= 1 && p6 <= 1 && p7 <= 1,
    ensures
        ((p0 | (p1 << 1u8) | (p2 << 2u8) | (p3 << 3u8) | (p4 << 4u8) | (p5 << 5u8) | (p6 << 6u8) | (
        p7 << 7u8)) == 0u8) == (p0 == 0 && p1 == 0 && p2 == 0 && p3 == 0 && p4 == 0 && p5 == 0
            && p6 == 0 && p7 == 0),
        ((p0 | (p1 << 1u8) | (p2 << 2u8) | (p3 << 3u8) | (p4 << 4u8) | (p5 << 5u8) | (p6 << 6u8) | (
        p7 << 7u8)) & 0x80u8 == 0u8) == (p7 == 0),
{
    assert(((p0 | (p1 << 1u8) | (p2 << 2u8) | (p3 << 3u8) | (p4 << 4u8) | (p5 << 5u8) | (p6 << 6u8)
        | (p7 << 7u8)) == 0u8) == (p0 == 0 && p1 == 0 && p2 == 0 && p3 == 0 && p4 == 0 && p5 == 0
        && p6 == 0 && p7 == 0)) by (bit_vector)
        requires
            p0 <= 1 && p1 <= 1 && p2 <= 1 && p3 <= 1 && p4 <= 1 && p5 <= 1 && p6 <= 1 && p7 <= 1,
    ;
    assert(((p0 | (p1 << 1u8) | (p2 << 2u8) | (p3 << 3u8) | (p4 << 4u8) | (p5 << 5u8) | (p6 << 6u8)
        | (p7 << 7u8)) & 0x80u8 == 0u8) == (p7 == 0)) by (bit_vector)
        requires
            p0 <= 1 && p1 <= 1 && p2 <= 1 && p3 <= 1 && p4 <= 1 && p5 <= 1 && p6 <= 1 && p7 <= 1,
    ;
}

proof fn lemma_or8_xor(
    a0: u8,
    a1: u8,
    a2: u8,
    a3: u8,
    a4: u8,
    a5: u8,
    a6: u8,
    a7: u8,
    b0: u8,
    b1: u8,
    b2: u8,
    b3: u8,
    b4: u8,
    b5: u8,
    b6: u8,
    b7: u8,
)
    requires
        a0 <= 1 && a1 <= 1 && a2 <= 1 && a3 <= 1 && a4 <= 1 && a5 <= 1 && a6 <= 1 && a7 <= 1,
        b0 <= 1 && b1 <= 1 && b2 <= 1 && b3 <= 1 && b4 <= 1 && b5 <= 1 && b6 <= 1 && b7 <= 1,
    ensures
        ((a0 ^ b0) | ((a1 ^ b1) << 1u8) | ((a2 ^ b2) << 2u8) | ((a3 ^ b3) << 3u8) | ((a4 ^ b4)
            << 4u8) | ((a5 ^ b5) << 5u8) | ((a6 ^ b6) << 6u8) | ((a7 ^ b7) << 7u8)) == ((a0 | (a1
            << 1u8) | (a2 << 2u8) | (a3 << 3u8) | (a4 << 4u8) | (a5 << 5u8) | (a6 << 6u8) | (a7
            << 7u8)) ^ (b0 | (b1 << 1u8) | (b2 << 2u8) | (b3 << 3u8) | (b4 << 4u8) | (b5 << 5u8) | (b6
            << 6u8) | (b7 << 7u8))),
{
    assert(((a0 ^ b0) | ((a1 ^ b1) << 1u8) | ((a2 ^ b2) << 2u8) | ((a3 ^ b3) << 3u8) | ((a4 ^ b4)
        << 4u8) | ((a5 ^ b5) << 5u8) | ((a6 ^ b6) << 6u8) | ((a7 ^ b7) << 7u8)) == ((a0 | (a1
        << 1u8) | (a2 << 2u8) | (a3 << 3u8) | (a4 << 4u8) | (a5 << 5u8) | (a6 << 6u8) | (a7
        << 7u8)) ^ (b0 | (b1 << 1u8) | (b2 << 2u8) | (b3 << 3u8) | (b4 << 4u8) | (b5 << 5u8) | (b6
        << 6u8) | (b7 << 7u8)))) by (bit_vector)
        requires
            a0 <= 1 && a1 <= 1 && a2 <= 1 && a3 <= 1 && a4 <= 1 && a5 <= 1 && a6 <= 1 && a7 <= 1,
            b0 <= 1 && b1 <= 1 && b2 <= 1 && b3 <= 1 && b4 <= 1 && b5 <= 1 && b6 <= 1 && b7 <= 1,
    ;
}

/// XOR of a byte with itself is zero.
pub proof fn lemma_xor_self(a: u8)
    ensures
        a ^ a == 0,
        a ^ 0 == a,
        0 ^ a == a,
{
    crate::exact::lemma_xor_u8_facts(a, 0, 0, 0);
}

/// Bytes with zero XOR are equal.
pub proof fn lemma_xor_zero_eq(x: u8, y: u8)
    ensures
        (x ^ y == 0) == (x == y),
        (x ^ y) ^ y == x,
{
    crate::exact::lemma_xor_u8_facts(x, y, 0, y);
    crate::exact::lemma_xor_u8_facts(y, 0, 0, 0);
    crate::exact::lemma_xor_u8_facts(x, 0, 0, 0);
}

/// A GF(2) matrix is invertible exactly when its kernel is trivial.
proof fn lemma_invertible_iff_trivial_kernel(m: Seq<u8>)
    requires
        m.len() == 8,
    ensures
        gf2_invertible_spec(m) == (forall|y: u8| y != 0 ==> !#[trigger] in_kernel(m, y)),
{
    lemma_mat_vec_zero_iff_kernel(m, 0);
    assert(in_kernel(m, 0)) by {
        assert forall|i: int| 0 <= i < 8 implies #[trigger] parity8(m[i] & 0u8) == 0 by {
            let r = m[i];
            lemma_parity_xor(r, 0, 0);
        }
    }
    if gf2_invertible_spec(m) {
        assert forall|y: u8| y != 0 implies !#[trigger] in_kernel(m, y) by {
            lemma_mat_vec_zero_iff_kernel(m, y);
            if in_kernel(m, y) {
                assert(mat_vec_spec(m, y) == mat_vec_spec(m, 0));
            }
        }
    }
    if forall|y: u8| y != 0 ==> !#[trigger] in_kernel(m, y) {
        assert forall|x: u8, y: u8| #[trigger]
            mat_vec_spec(m, x) == #[trigger] mat_vec_spec(m, y) implies x == y by {
            lemma_mat_vec_xor(m, x, y);
            lemma_mat_vec_zero_iff_kernel(m, x ^ y);
            lemma_xor_self(mat_vec_spec(m, x));
            lemma_xor_zero_eq(x, y);
        }
    }
}

} // verus!

verus! {

/// Number of pivot columns (entries `>= 0`) among columns `k..8`.
spec fn pivot_count(pr: Seq<int>, k: int) -> nat
    decreases 8 - k,
{
    if k >= 8 {
        0
    } else {
        (if pr[k] >= 0 {
            1nat
        } else {
            0nat
        }) + pivot_count(pr, k + 1)
    }
}

proof fn lemma_pivot_count_agree(a: Seq<int>, b: Seq<int>, k: int)
    requires
        0 <= k <= 8,
        forall|c: int| k <= c < 8 ==> a[c] == b[c],
    ensures
        pivot_count(a, k) == pivot_count(b, k),
    decreases 8 - k,
{
    if k < 8 {
        lemma_pivot_count_agree(a, b, k + 1);
    }
}

proof fn lemma_pivot_count_full(pr: Seq<int>, k: int)
    requires
        0 <= k <= 8,
    ensures
        pivot_count(pr, k) <= 8 - k,
        pivot_count(pr, k) == 8 - k ==> forall|c: int| k <= c < 8 ==> pr[c] >= 0,
    decreases 8 - k,
{
    if k < 8 {
        lemma_pivot_count_full(pr, k + 1);
    }
}

/// Gaussian-elimination invariant on the working rows `m`, with `pr[c]`
/// the pivot row of column `c` (or -1), for the columns `k..8` already
/// processed.
spec fn elimination_inv(rows: Seq<u8>, m: Seq<u8>, pr: Seq<int>, rank: int, k: int) -> bool {
    &&& m.len() == 8
    &&& pr.len() == 8
    &&& 0 <= k <= 8
    &&& 0 <= rank <= 8
    &&& rank == pivot_count(pr, k)
    &&& forall|c: int| 0 <= c < k ==> pr[c] == -1
    &&& forall|c: int|
        #![trigger pr[c]]
        k <= c < 8 && pr[c] >= 0 ==> {
            &&& pr[c] < rank
            &&& bit_of(m[pr[c]], c)
            &&& forall|r: int| 0 <= r < 8 && r != pr[c] ==> !bit_of(#[trigger] m[r], c)
        }
    &&& forall|c: int, r: int|
        k <= c < 8 && pr[c] < 0 && rank <= r < 8 ==> !bit_of(#[trigger] m[r], c) && #[trigger] pr[c]
            == -1
    &&& forall|c1: int, c2: int|
        k <= c1 < 8 && k <= c2 < 8 && c1 != c2 && #[trigger] pr[c1] >= 0 ==> pr[c1] != #[trigger] pr[c2]
    &&& forall|y: u8| #[trigger] in_kernel(m, y) == in_kernel(rows, y)
}

/// Whether an 8x8 GF(2) matrix (bit i of row j = entry [j][i]) is
/// invertible, via Gaussian elimination from the most significant bit.
#[verifier::spinoff_prover]
pub fn is_invertible_gf2(rows: &[u8; 8]) -> (r: bool)
    ensures
        r == gf2_invertible_spec(rows@),
{
    let mut m: Vec<u8> = Vec::new();
    let mut i: usize = 0;
    while i < 8
        invariant
            i <= 8,
            m@ == rows@.subrange(0, i as int),
        decreases 8 - i,
    {
        m.push(rows[i]);
        i += 1;
    }
    assert(m@ == rows@);
    let mut rank: usize = 0;
    let ghost mut pr: Seq<int> = Seq::new(8, |c: int| -1int);
    let mut k: usize = 8;
    while k > 0
        invariant
            elimination_inv(rows@, m@, pr, rank as int, k as int),
        decreases k,
    {
        k -= 1;
        let bit = k as u8;
        let mask: u8 = 1u8 << bit;
        let mut p = rank;
        while p < 8 && m[p] & mask == 0
            invariant
                rank <= p <= 8,
                m@.len() == 8,
                bit < 8,
                mask == 1u8 << bit,
                forall|r: int| rank <= r < p ==> !bit_of(#[trigger] m@[r], bit as int),
            decreases 8 - p,
        {
            proof {
                lemma_mask_bit(m@[p as int], bit);
            }
            p += 1;
        }
        if p < 8 {
            proof {
                lemma_mask_bit(m@[p as int], bit);
            }
            let ghost m0 = m@;
            let top = m[rank];
            let piv_row = m[p];
            m.set(rank, piv_row);
            m.set(p, top);
            let ghost s = m@;
            assert(forall|y: u8| #[trigger] in_kernel(s, y) == in_kernel(m0, y)) by {
                assert forall|y: u8| #[trigger] in_kernel(s, y) == in_kernel(m0, y) by {
                    if in_kernel(s, y) {
                        assert forall|i: int| 0 <= i < 8 implies #[trigger] parity8(m0[i] & y) == 0 by {
                            if i == rank {
                                assert(parity8(s[p as int] & y) == 0);
                            } else if i == p {
                                assert(parity8(s[rank as int] & y) == 0);
                            } else {
                                assert(parity8(s[i] & y) == 0);
                            }
                        }
                    }
                    if in_kernel(m0, y) {
                        assert forall|i: int| 0 <= i < 8 implies #[trigger] parity8(s[i] & y) == 0 by {
                            if i == rank {
                                assert(parity8(m0[p as int] & y) == 0);
                            } else if i == p {
                                assert(parity8(m0[rank as int] & y) == 0);
                            } else {
                                assert(parity8(m0[i] & y) == 0);
                            }
                        }
                    }
                }
            }
            let mut r: usize = 0;
            while r < 8
                invariant
                    r <= 8,
                    rank < 8,
                    bit < 8,
                    mask == 1u8 << bit,
                    m@.len() == 8,
                    s.len() == 8,
                    m@[rank as int] == s[rank as int],
                    bit_of(s[rank as int], bit as int),
                    forall|j: int|
                        0 <= j < 8 ==> #[trigger] m@[j] == if j < r && j != rank && bit_of(
                            s[j],
                            bit as int,
                        ) {
                            s[j] ^ s[rank as int]
                        } else {
                            s[j]
                        },
                decreases 8 - r,
            {
                proof {
                    lemma_mask_bit(m@[r as int], bit);
                }
                if r != rank && (m[r] & mask) != 0 {
                    let v = m[r] ^ m[rank];
                    m.set(r, v);
                }
                r += 1;
            }
            let ghost t = m@;
            proof {
                let old_pr = pr;
                let rk = rank as int;
                let c0 = bit as int;
                // bits of the cleared rows
                assert forall|j: int, c: int|
                    0 <= j < 8 && 0 <= c < 8 && j != rk && bit_of(s[j], c0) implies #[trigger] bit_of(
                    t[j],
                    c,
                ) == (bit_of(s[j], c) != bit_of(s[rk], c)) by {
                    lemma_bit_of_xor(s[j], s[rk], c as u8);
                }
                // kernel preserved by the row additions
                assert forall|y: u8| #[trigger] in_kernel(t, y) == in_kernel(s, y) by {
                    if in_kernel(s, y) {
                        assert forall|i: int| 0 <= i < 8 implies #[trigger] parity8(t[i] & y) == 0 by {
                            assert(parity8(s[i] & y) == 0);
                            assert(parity8(s[rk] & y) == 0);
                            lemma_parity_xor(s[i], s[rk], y);
                            lemma_xor_self(0);
                        }
                    }
                    if in_kernel(t, y) {
                        assert forall|i: int| 0 <= i < 8 implies #[trigger] parity8(s[i] & y) == 0 by {
                            assert(parity8(t[rk] & y) == 0);
                            assert(parity8(t[i] & y) == 0);
                            lemma_xor_self(0);
                            if i != rk && bit_of(s[i], c0) {
                                assert(t[i] == s[i] ^ s[rk]);
                                lemma_parity_xor(t[i], s[rk], y);
                                lemma_xor_zero_eq(s[i], s[rk]);
                            } else {
                                assert(t[i] == s[i]);
                            }
                        }
                    }
                }
                pr = old_pr.update(c0, rk);
                lemma_pivot_count_agree(old_pr, pr, c0 + 1);
                assert forall|c: int|
                    #![trigger pr[c]]
                    c0 <= c < 8 && pr[c] >= 0 implies {
                    &&& pr[c] < rk + 1
                    &&& bit_of(t[pr[c]], c)
                    &&& forall|r: int| 0 <= r < 8 && r != pr[c] ==> !bit_of(#[trigger] t[r], c)
                } by {
                    if c == c0 {
                        assert forall|r: int| 0 <= r < 8 && r != pr[c] implies !bit_of(
                            #[trigger] t[r],
                            c,
                        ) by {
                            if bit_of(s[r], c0) {
                                lemma_bit_of_xor(s[r], s[rk], c as u8);
                            }
                        }
                    } else {
                        let pc = old_pr[c];
                        assert(pc < rk);
                        assert(s[pc] == m0[pc]);
                        assert(!bit_of(s[rk], c)) by {
                            assert(s[rk] == m0[p as int]);
                        }
                        assert(bit_of(t[pc], c)) by {
                            if bit_of(s[pc], c0) {
                                lemma_bit_of_xor(s[pc], s[rk], c as u8);
                            }
                        }
                        assert forall|r: int| 0 <= r < 8 && r != pr[c] implies !bit_of(
                            #[trigger] t[r],
                            c,
                        ) by {
                            assert(!bit_of(s[r], c)) by {
                                if r == rk {
                                    assert(s[r] == m0[p as int]);
                                } else if r == p {
                                    assert(s[r] == m0[rk]);
                                } else {
                                    assert(s[r] == m0[r]);
                                }
                            }
                            if r != rk && bit_of(s[r], c0) {
                                lemma_bit_of_xor(s[r], s[rk], c as u8);
                            }
                        }
                    }
                }
                assert forall|c: int, r: int|
                    c0 <= c < 8 && pr[c] < 0 && rk + 1 <= r < 8 implies !bit_of(#[trigger] t[r], c)
                    && #[trigger] pr[c] == -1 by {
                    assert(c != c0);
                    assert(old_pr[c] == -1);
                    assert(!bit_of(s[rk], c)) by {
                        assert(s[rk] == m0[p as int]);
                    }
                    assert(!bit_of(s[r], c)) by {
                        if r == p {
                            assert(s[r] == m0[rk]);
                        } else {
                            assert(s[r] == m0[r]);
                        }
                    }
                    if bit_of(s[r], c0) {
                        lemma_bit_of_xor(s[r], s[rk], c as u8);
                    }
                }
                assert forall|c1: int, c2: int|
                    c0 <= c1 < 8 && c0 <= c2 < 8 && c1 != c2 && #[trigger] pr[c1] >= 0 implies pr[c1]
                    != #[trigger] pr[c2] by {
                    if c1 != c0 && c2 != c0 {
                        assert(old_pr[c1] != old_pr[c2]);
                    } else if c1 == c0 {
                        assert(old_pr[c2] < rk);
                    } else {
                        assert(old_pr[c1] < rk);
                    }
                }
                assert forall|y: u8| #[trigger] in_kernel(t, y) == in_kernel(rows@, y) by {
                    assert(in_kernel(t, y) == in_kernel(s, y));
                    assert(in_kernel(s, y) == in_kernel(m0, y));
                }
            }
            rank += 1;
            proof {
                let ki = k as int;
                let ri = rank as int;
                assert(m@.len() == 8);
                assert(pr.len() == 8);
                assert(ri == pivot_count(pr, ki));
                assert(forall|c: int| 0 <= c < ki ==> pr[c] == -1);
                assert(forall|c1: int, c2: int|
                    ki <= c1 < 8 && ki <= c2 < 8 && c1 != c2 && #[trigger] pr[c1] >= 0 ==> pr[c1]
                        != #[trigger] pr[c2]);
                assert(forall|y: u8| #[trigger] in_kernel(m@, y) == in_kernel(rows@, y));
                assert(forall|c: int|
                    #![trigger pr[c]]
                    ki <= c < 8 && pr[c] >= 0 ==> {
                        &&& pr[c] < ri
                        &&& bit_of(m@[pr[c]], c)
                        &&& forall|r: int| 0 <= r < 8 && r != pr[c] ==> !bit_of(#[trigger] m@[r], c)
                    });
                assert(forall|c: int, r: int|
                    ki <= c < 8 && pr[c] < 0 && ri <= r < 8 ==> !bit_of(#[trigger] m@[r], c)
                        && #[trigger] pr[c] == -1);
                assert(0 <= ri <= 8);
                assert(elimination_inv(rows@, m@, pr, rank as int, k as int));
            }
        } else {
            proof {
                assert forall|c: int, r: int|
                    k as int <= c < 8 && pr[c] < 0 && rank <= r < 8 implies !bit_of(
                    #[trigger] m@[r],
                    c,
                ) && #[trigger] pr[c] == -1 by {
                }
                let ki = k as int;
                let ri = rank as int;
                assert(pr[ki] == -1);
                assert(ri == pivot_count(pr, ki));
                assert(forall|c: int|
                    #![trigger pr[c]]
                    ki <= c < 8 && pr[c] >= 0 ==> {
                        &&& pr[c] < ri
                        &&& bit_of(m@[pr[c]], c)
                        &&& forall|r: int| 0 <= r < 8 && r != pr[c] ==> !bit_of(#[trigger] m@[r], c)
                    });
                assert(forall|c1: int, c2: int|
                    ki <= c1 < 8 && ki <= c2 < 8 && c1 != c2 && #[trigger] pr[c1] >= 0 ==> pr[c1]
                        != #[trigger] pr[c2]);
                assert(elimination_inv(rows@, m@, pr, rank as int, k as int));
            }
        }
    }
    proof {
        lemma_invertible_iff_trivial_kernel(rows@);
        lemma_invertible_iff_trivial_kernel(m@);
        lemma_pivot_count_full(pr, 0);
        if rank == 8 {
            assert forall|y: u8| y != 0 implies !#[trigger] in_kernel(m@, y) by {
                let c = lemma_nonzero_has_bit(y);
                let r = pr[c];
                assert forall|d: int| 0 <= d < 8 && d != c implies !bit_of(m@[r], d) by {
                    assert(pr[d] >= 0);
                    assert(pr[d] != pr[c]);
                }
                assert(0 <= r < 8);
                assert(bit_of(m@[r], c));
                assert(bit_of(y, c));
                lemma_single_bit_row(m@[r], c as u8, y);
                assert(parity8(m@[r] & y) == 1);
            }
            assert(gf2_invertible_spec(m@));
            assert forall|y: u8| y != 0 implies !#[trigger] in_kernel(rows@, y) by {
                assert(!in_kernel(m@, y));
            }
            assert(gf2_invertible_spec(rows@));
        } else {
            assert forall|c: int| 0 <= c < 8 implies !bit_of(m@[7], c) by {
                if pr[c] >= 0 {
                    assert(pr[c] < 8);
                }
            }
            lemma_bits_clear_zero(m@[7]);
            if gf2_invertible_spec(m@) {
                let f = |y: u8| mat_vec_spec(m@, y);
                assert forall|x: u8, y: u8| #[trigger] f(x) == #[trigger] f(y) implies x == y by {
                }
                lemma_byte_map_injective_surjective(f, 0x80);
                let y = choose|y: u8| #[trigger] f(y) == 0x80u8;
                let mm = m@;
                lemma_parity_xor(mm[0], 0, y);
                lemma_parity_xor(mm[1], 0, y);
                lemma_parity_xor(mm[2], 0, y);
                lemma_parity_xor(mm[3], 0, y);
                lemma_parity_xor(mm[4], 0, y);
                lemma_parity_xor(mm[5], 0, y);
                lemma_parity_xor(mm[6], 0, y);
                lemma_parity_xor(mm[7], 0, y);
                lemma_parity_xor(0, 0, y);
                lemma_or8_zero(
                    mat_row_bit(mm, y, 0),
                    mat_row_bit(mm, y, 1),
                    mat_row_bit(mm, y, 2),
                    mat_row_bit(mm, y, 3),
                    mat_row_bit(mm, y, 4),
                    mat_row_bit(mm, y, 5),
                    mat_row_bit(mm, y, 6),
                    mat_row_bit(mm, y, 7),
                );
                assert(0x80u8 & 0x80u8 != 0u8) by (bit_vector);
            }
        }
    }
    rank == 8
}

} // verus!
