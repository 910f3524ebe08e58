//! Key-derived permutations (Fisher-Yates driven by SHAKE-256), their
//! inverses and their application to byte strings.

use crate::kdf::{append_bytes, be_u64_at, shake256_stream, stream_bytes, u64_from_be_at};
use vstd::prelude::*;
use vstd::string::StringSliceAdditionalSpecFns;

verus! {

// ============================================================
// Permutations as sequences
// ============================================================

/// `p` is a permutation of `{0, ..., n - 1}`.
pub open spec fn is_permutation(p: Seq<usize>, n: nat) -> bool {
    &&& p.len() == n
    &&& forall|i: int| 0 <= i < n ==> #[trigger] p[i] < n
    &&& forall|i: int, j: int| 0 <= i < n && 0 <= j < n && i != j ==> #[trigger] p[i] != #[trigger] p[j]
}

/// The identity arrangement `[0, 1, ..., n - 1]`.
pub open spec fn identity_perm(n: nat) -> Seq<usize> {
    Seq::new(n, |i: int| i as usize)
}

/// `data` rearranged by `p`: position `i` receives `data[p[i]]`.
pub open spec fn apply_perm_spec<T>(data: Seq<T>, p: Seq<usize>) -> Seq<T> {
    Seq::new(p.len(), |i: int| data[p[i] as int])
}

/// The last position `< k` of `p` holding `v`, or 0 if there is none.
pub open spec fn last_index_below(p: Seq<usize>, v: usize, k: nat) -> int
    decreases k,
{
    if k == 0 {
        0
    } else if p[k - 1] == v {
        k - 1
    } else {
        last_index_below(p, v, (k - 1) as nat)
    }
}

/// The index-inverse of `p`: entry `v` is the last position holding `v`
/// (0 when `v` does not occur).
pub open spec fn inverse_perm_spec(p: Seq<usize>) -> Seq<usize> {
    Seq::new(p.len(), |v: int| last_index_below(p, v as usize, p.len()) as usize)
}

proof fn lemma_last_index_below(p: Seq<usize>, v: usize, k: nat)
    requires
        k <= p.len(),
    ensures
        0 <= last_index_below(p, v, k),
        k > 0 ==> last_index_below(p, v, k) < k,
        (exists|i: int| 0 <= i < k && p[i] == v) ==> p[last_index_below(p, v, k)] == v,
    decreases k,
{
    if k > 0 {
        lemma_last_index_below(p, v, (k - 1) as nat);
        if p[k - 1] != v {
            if exists|i: int| 0 <= i < k && p[i] == v {
                let i = choose|i: int| 0 <= i < k && p[i] == v;
                assert(0 <= i < k - 1);
            }
        }
    }
}

proof fn lemma_last_index_unique(p: Seq<usize>, i: int, k: nat)
    requires
        k <= p.len(),
        0 <= i < k,
        forall|j: int| 0 <= j < k && j != i ==> p[j] != p[i],
    ensures
        last_index_below(p, p[i], k) == i,
    decreases k,
{
    if k - 1 != i {
        lemma_last_index_unique(p, i, (k - 1) as nat);
    }
}

/// An injective map from `[0, n)` into `[0, n)` reaches every value.
pub proof fn lemma_injective_surjective(p: Seq<usize>, n: nat, v: int)
    requires
        p.len() == n,
        forall|i: int| 0 <= i < n ==> #[trigger] p[i] < n,
        forall|i: int, j: int| 0 <= i < n && 0 <= j < n && i != j ==> #[trigger] p[i] != #[trigger] p[j],
        0 <= v < n,
    ensures
        exists|i: int| 0 <= i < n && p[i] == v,
{
    let dom = vstd::set_lib::set_int_range(0, n as int);
    let g = |i: int| p[i] as int;
    vstd::set_lib::lemma_int_range(0, n as int);
    assert(vstd::relations::injective_on(g, dom));
    let img = dom.map(g);
    vstd::set_lib::lemma_map_size(dom, img, g);
    assert(img.subset_of(dom)) by {
        assert forall|w: int| img.contains(w) implies dom.contains(w) by {
            let i = choose|i: int| dom.contains(i) && g(i) == w;
            assert(p[i] < n);
        }
    }
    vstd::set_lib::lemma_subset_equality(img, dom);
    assert(img.contains(v));
    let i = choose|i: int| dom.contains(i) && g(i) == v;
    assert(p[i] == v);
}

/// For a permutation `p`, `inverse_perm_spec(p)` is a permutation that
/// undoes `p` on both sides.
pub proof fn lemma_inverse_permutation(p: Seq<usize>, n: nat)
    requires
        is_permutation(p, n),
        n <= usize::MAX,
    ensures
        is_permutation(inverse_perm_spec(p), n),
        forall|i: int| 0 <= i < n ==> #[trigger] inverse_perm_spec(p)[p[i] as int] == i,
        forall|v: int| 0 <= v < n ==> #[trigger] p[inverse_perm_spec(p)[v] as int] == v,
{
    let inv = inverse_perm_spec(p);
    assert forall|i: int| 0 <= i < n implies #[trigger] inv[p[i] as int] == i by {
        lemma_last_index_unique(p, i, n);
        assert(p[i] < n);
        assert(inv[p[i] as int] == last_index_below(p, p[i], n) as usize);
    }
    assert forall|v: int| 0 <= v < n implies #[trigger] p[inv[v] as int] == v by {
        lemma_injective_surjective(p, n, v);
        lemma_last_index_below(p, v as usize, n);
    }
    assert forall|v: int| 0 <= v < n implies #[trigger] inv[v] < n by {
        lemma_last_index_below(p, v as usize, n);
    }
    assert forall|v: int, w: int| 0 <= v < n && 0 <= w < n && v != w implies #[trigger] inv[v]
        != #[trigger] inv[w] by {
        assert(p[inv[v] as int] == v);
        assert(p[inv[w] as int] == w);
    }
}

/// Applying a permutation and then its inverse (in either order) gives
/// back the original data.
pub proof fn lemma_apply_inverse_roundtrip<T>(data: Seq<T>, p: Seq<usize>)
    requires
        is_permutation(p, data.len()),
        data.len() <= usize::MAX,
    ensures
        apply_perm_spec(apply_perm_spec(data, p), inverse_perm_spec(p)) == data,
        apply_perm_spec(apply_perm_spec(data, inverse_perm_spec(p)), p) == data,
{
    lemma_inverse_permutation(p, data.len());
    assert(apply_perm_spec(apply_perm_spec(data, p), inverse_perm_spec(p)) =~= data);
    assert(apply_perm_spec(apply_perm_spec(data, inverse_perm_spec(p)), p) =~= data);
}

// ============================================================
// Key-derived Fisher-Yates shuffle
// ============================================================

/// The arrangement after the first `t` swaps of the Fisher-Yates shuffle of
/// `[0, n)`, swap number `t` (1-based) exchanging position `n - t` with the
/// position given by the `t`-th big-endian `u64` of `data`, reduced
/// modulo `n - t + 1`.
pub open spec fn fisher_yates_state(data: Seq<u8>, n: nat, t: nat) -> Seq<usize>
    decreases t,
{
    if t == 0 {
        identity_perm(n)
    } else {
        let prev = fisher_yates_state(data, n, (t - 1) as nat);
        let i = n - t;
        let j = (be_u64_at(data, 8 * (t - 1)) % ((i + 1) as u64)) as int;
        prev.update(i, prev[j]).update(j, prev[i])
    }
}

/// The complete Fisher-Yates shuffle of `[0, n)` driven by `data`.
pub open spec fn fisher_yates(data: Seq<u8>, n: nat) -> Seq<usize> {
    if n == 0 {
        identity_perm(0)
    } else {
        fisher_yates_state(data, n, (n - 1) as nat)
    }
}

/// The byte stream a permutation of `size` elements is drawn from.
pub open spec fn permutation_stream(seed: Seq<u8>, size: nat) -> Seq<u8> {
    shake256_stream(seed + "PERMUTATION".spec_bytes(), size * 8)
}

/// The key-derived permutation of `[0, size)` for `seed`.
pub open spec fn generate_permutation_spec(seed: Seq<u8>, size: nat) -> Seq<usize> {
    fisher_yates(permutation_stream(seed, size), size)
}

proof fn lemma_swap_permutation(p: Seq<usize>, n: nat, i: int, j: int)
    requires
        is_permutation(p, n),
        0 <= i < n,
        0 <= j < n,
    ensures
        is_permutation(p.update(i, p[j]).update(j, p[i]), n),
{
    let q = p.update(i, p[j]).update(j, p[i]);
    assert forall|a: int, b: int| 0 <= a < n && 0 <= b < n && a != b implies #[trigger] q[a]
        != #[trigger] q[b] by {
        let sa = if a == i { j } else if a == j { i } else { a };
        let sb = if b == i { j } else if b == j { i } else { b };
        assert(q[a] == p[sa]);
        assert(q[b] == p[sb]);
    }
}

/// Every state of the Fisher-Yates shuffle of `[0, n)` is a permutation.
proof fn lemma_fisher_yates_state_permutation(data: Seq<u8>, n: nat, t: nat)
    requires
        t < n <= usize::MAX,
    ensures
        is_permutation(fisher_yates_state(data, n, t), n),
    decreases t,
{
    if t == 0 {
        let id = identity_perm(n);
        assert forall|i: int| 0 <= i < n implies #[trigger] id[i] < n by {
            assert(id[i] == i as usize);
        }
    } else {
        lemma_fisher_yates_state_permutation(data, n, (t - 1) as nat);
        let prev = fisher_yates_state(data, n, (t - 1) as nat);
        let i = n - t;
        let m = (i + 1) as u64;
        assert(m == i + 1);
        let j = (be_u64_at(data, 8 * (t - 1)) % m) as int;
        assert(0 <= j <= i);
        lemma_swap_permutation(prev, n, i, j);
    }
}

/// Every key-derived arrangement of `[0, size)` is a permutation.
pub proof fn lemma_generated_permutation(seed: Seq<u8>, size: nat)
    requires
        size <= usize::MAX,
    ensures
        is_permutation(generate_permutation_spec(seed, size), size),
{
    if size > 0 {
        lemma_fisher_yates_state_permutation(permutation_stream(seed, size), size, (size - 1) as nat);
    }
}

/// Deterministic, key-derived permutation of `[0, size)`.
pub fn generate_permutation(seed: &[u8], size: usize) -> (permutation: Vec<usize>)
    requires
        size <= usize::MAX / 8,
    ensures
        permutation@ == generate_permutation_spec(seed@, size as nat),
        is_permutation(permutation@, size as nat),
{
    let mut permutation: Vec<usize> = Vec::new();
    let mut k: usize = 0;
    while k < size
        invariant
            k <= size,
            permutation@ == identity_perm(k as nat),
        decreases size - k,
    {
        permutation.push(k);
        k += 1;
        proof {
            assert(permutation@ =~= identity_perm(k as nat));
        }
    }
    let mut full_seed: Vec<u8> = Vec::new();
    append_bytes(&mut full_seed, seed);
    append_bytes(&mut full_seed, "PERMUTATION".as_bytes());
    let data = stream_bytes(full_seed.as_slice(), size * 8);
    let ghost d = data@;
    assert(d == permutation_stream(seed@, size as nat));
    let mut position: usize = 0;
    let mut i: usize = size;
    while i > 1
        invariant
            i <= size,
            size <= usize::MAX / 8,
            data@ == d,
            d.len() == size * 8,
            position == 8 * (size - i),
            size == 0 || i >= 1,
            permutation@ == fisher_yates_state(d, size as nat, (size - i) as nat),
            is_permutation(permutation@, size as nat),
        decreases i,
    {
        i -= 1;
        let value = u64_from_be_at(data.as_slice(), position);
        position += 8;
        let j = (value % (i as u64 + 1)) as usize;
        let a = permutation[i];
        let b = permutation[j];
        proof {
            lemma_swap_permutation(permutation@, size as nat, i as int, j as int);
        }
        permutation.set(i, b);
        permutation.set(j, a);
    }
    proof {
        if size == 0 {
            assert(permutation@ == fisher_yates(d, 0));
        } else {
            assert(i == 1);
            assert(permutation@ == fisher_yates(d, size as nat));
        }
    }
    permutation
}

/// The index-inverse of a permutation (`inverse[permutation[i]] = i`).
pub fn inverse_permutation(permutation: &[usize]) -> (inverse: Vec<usize>)
    requires
        forall|i: int| 0 <= i < permutation@.len() ==> #[trigger] permutation@[i] < permutation@.len(),
    ensures
        inverse@ == inverse_perm_spec(permutation@),
{
    let n = permutation.len();
    let mut inverse: Vec<usize> = Vec::new();
    let mut k: usize = 0;
    while k < n
        invariant
            k <= n,
            n == permutation@.len(),
            inverse@.len() == k,
            forall|v: int| 0 <= v < k ==> #[trigger] inverse@[v] == 0,
        decreases n - k,
    {
        inverse.push(0);
        k += 1;
    }
    let mut i: usize = 0;
    while i < n
        invariant
            i <= n,
            n == permutation@.len(),
            inverse@.len() == n,
            forall|j: int| 0 <= j < n ==> #[trigger] permutation@[j] < n,
            forall|v: int|
                0 <= v < n ==> #[trigger] inverse@[v] == last_index_below(
                    permutation@,
                    v as usize,
                    i as nat,
                ),
        decreases n - i,
    {
        let value = permutation[i];
        inverse.set(value, i);
        i += 1;
    }
    assert(inverse@ =~= inverse_perm_spec(permutation@));
    inverse
}

/// Rearranges `data`: position `i` of the result is `data[permutation[i]]`.
pub fn apply_permutation(data: &[u8], permutation: &[usize]) -> (out: Vec<u8>)
    requires
        forall|i: int| 0 <= i < permutation@.len() ==> #[trigger] permutation@[i] < data@.len(),
    ensures
        out@ == apply_perm_spec(data@, permutation@),
{
    let mut out: Vec<u8> = Vec::new();
    let mut i: usize = 0;
    while i < permutation.len()
        invariant
            i <= permutation@.len(),
            forall|k: int| 0 <= k < permutation@.len() ==> #[trigger] permutation@[k] < data@.len(),
            out@ == apply_perm_spec(data@, permutation@.subrange(0, i as int)),
        decreases permutation@.len() - i,
    {
        out.push(data[permutation[i]]);
        i += 1;
        proof {
            assert(out@ =~= apply_perm_spec(data@, permutation@.subrange(0, i as int)));
        }
    }
    assert(permutation@.subrange(0, permutation@.len() as int) =~= permutation@);
    out
}

} // verus!
