//! Sampled differential statistics: random differences with a fixed
//! number of active bytes, their propagation through one transformer, one
//! round or several rounds, and integer tallies of the observed output
//! activity. The tallies are observations of random trials, not bounds.

use crate::analyzer::{active_below, active_bytes};
use crate::cipher::{
    context_consistent, context_wf, lemma_round_lens, lemma_round_no_key_injective, random_bytes, round_no_key_spec, round_transform_no_key,
    CipherContext, ContextModel, ROUNDS,
};
use crate::transformer::{
    lemma_transform_len, transform_spec, transformer_function, transformer_wf, xor_bytes, xor_vec,
    GeneratedTransformer, TransformerModel, BLOCK_SIZE, HALF_SIZE,
};
use rand::Rng;
use vstd::prelude::*;

verus! {

// ============================================================
// Random differences
// ============================================================

/// Calls `rand::thread_rng().gen_range(lo..hi)`. Claimed: the result lies
/// in `lo..hi`; nothing is claimed of which value it is (it comes from
/// the thread-local generator, which panics if the operating system's
/// random source cannot be initialised). `gen_range` panics on an empty
/// range, hence `lo < hi`.
#[verifier::external_body]
fn random_in_range(lo: usize, hi: usize) -> (r: usize)
    requires
        lo < hi,
    ensures
        lo <= r < hi,
{
    rand::thread_rng().gen_range(lo..hi)
}

/// `delta` has `size` bytes, exactly `min(active_in, size)` of them nonzero.
pub open spec fn difference_shape(delta: Seq<u8>, size: nat, active_in: nat) -> bool {
    &&& delta.len() == size
    &&& active_below(delta, size) == if active_in <= size {
        active_in
    } else {
        size
    }
}

/// A count of nonzero bytes is at most the number of bytes counted.
pub proof fn lemma_active_below_bound(s: Seq<u8>, n: nat)
    ensures
        active_below(s, n) <= n,
    decreases n,
{
    if n > 0 {
        lemma_active_below_bound(s, (n - 1) as nat);
    }
}

/// Sequences that agree below `n` have as many nonzero bytes there.
proof fn lemma_active_below_agree(s: Seq<u8>, t: Seq<u8>, n: nat)
    requires
        forall|i: int| 0 <= i < n ==> s[i] == t[i],
    ensures
        active_below(s, n) == active_below(t, n),
    decreases n,
{
    if n > 0 {
        lemma_active_below_agree(s, t, (n - 1) as nat);
    }
}

/// Making a zero byte below `n` nonzero adds one nonzero byte.
proof fn lemma_active_below_set(s: Seq<u8>, p: int, v: u8, n: nat)
    requires
        n <= s.len(),
        0 <= p < n,
        s[p] == 0,
        v != 0,
    ensures
        active_below(s.update(p, v), n) == active_below(s, n) + 1,
    decreases n,
{
    if p < n - 1 {
        lemma_active_below_set(s, p, v, (n - 1) as nat);
    } else {
        lemma_active_below_agree(s.update(p, v), s, (n - 1) as nat);
    }
}

/// A random `size`-byte difference with exactly `min(active_in, size)`
/// nonzero bytes: the positions are the first entries of a partial
/// Fisher-Yates shuffle of `0..size`, the values random nonzero bytes.
pub fn random_difference(size: usize, active_in: usize) -> (delta: Vec<u8>)
    ensures
        difference_shape(delta@, size as nat, active_in as nat),
{
    let k: usize = if active_in <= size {
        active_in
    } else {
        size
    };
    let mut positions: Vec<usize> = Vec::new();
    let mut delta: Vec<u8> = Vec::new();
    let mut i: usize = 0;
    while i < size
        invariant
            i <= size,
            positions@.len() == i,
            delta@.len() == i,
            forall|m: int| 0 <= m < i ==> positions@[m] == m,
            forall|m: int| 0 <= m < i ==> delta@[m] == 0,
        decreases size - i,
    {
        positions.push(i);
        delta.push(0u8);
        i += 1;
    }
    let mut i: usize = 0;
    while i < k
        invariant
            k <= size,
            i <= k,
            positions@.len() == size,
            forall|m: int| 0 <= m < size ==> #[trigger] positions@[m] < size,
            forall|a: int, b: int| 0 <= a < size && 0 <= b < size && a != b ==> positions@[a] != positions@[b],
        decreases k - i,
    {
        let j = random_in_range(i, size);
        let pi = positions[i];
        let pj = positions[j];
        positions.set(i, pj);
        positions.set(j, pi);
        i += 1;
    }
    proof {
        lemma_active_below_zero(delta@, size as nat);
    }
    let mut i: usize = 0;
    while i < k
        invariant
            k <= size,
            i <= k,
            positions@.len() == size,
            delta@.len() == size,
            forall|m: int| 0 <= m < size ==> #[trigger] positions@[m] < size,
            forall|a: int, b: int| 0 <= a < size && 0 <= b < size && a != b ==> positions@[a] != positions@[b],
            active_below(delta@, size as nat) == i,
            forall|m: int| i <= m < k ==> delta@[#[trigger] positions@[m] as int] == 0,
        decreases k - i,
    {
        let v = random_in_range(1, 256) as u8;
        let p = positions[i];
        proof {
            lemma_active_below_set(delta@, p as int, v, size as nat);
            assert forall|m: int| i + 1 <= m < k implies delta@.update(p as int, v)[#[trigger] positions@[m] as int]
                == 0 by {
                assert(positions@[m] != positions@[i as int]);
            }
        }
        delta.set(p, v);
        i += 1;
    }
    delta
}

// ============================================================
// Output activity of one sampled pair
// ============================================================

/// Nonzero bytes of `d`.
pub open spec fn active_count(d: Seq<u8>) -> nat {
    active_below(d, d.len())
}

/// Output activity of one transformer: nonzero bytes of
/// `T(base) XOR T(base XOR delta)`.
pub open spec fn transformer_activity(t: TransformerModel, base: Seq<u8>, delta: Seq<u8>) -> nat {
    active_count(xor_bytes(transform_spec(base, t), transform_spec(xor_bytes(base, delta), t)))
}

/// Output activity of one keyless round `r`.
pub open spec fn round_activity(m: ContextModel, r: int, base: Seq<u8>, delta: Seq<u8>) -> nat {
    active_count(xor_bytes(round_no_key_spec(base, m, r), round_no_key_spec(xor_bytes(base, delta), m, r)))
}

/// Output activity of `transformer` for the pair `(base, base XOR delta)`.
pub fn transformer_output_activity(transformer: &GeneratedTransformer, base: &[u8], delta: &[u8]) -> (r: usize)
    requires
        transformer_wf(transformer@, HALF_SIZE as nat),
        base@.len() == HALF_SIZE,
        delta@.len() == HALF_SIZE,
    ensures
        r == transformer_activity(transformer@, base@, delta@),
{
    let other = xor_vec(base, delta);
    let y1 = transformer_function(base, transformer);
    let y2 = transformer_function(other.as_slice(), transformer);
    let d = xor_vec(y1.as_slice(), y2.as_slice());
    active_bytes(d.as_slice())
}

/// Output activity of keyless round `round` of `ctx` for the pair
/// `(base, base XOR delta)`.
pub fn round_output_activity(ctx: &CipherContext, round: usize, base: &[u8], delta: &[u8]) -> (r: usize)
    requires
        context_wf(ctx@),
        round < ROUNDS,
        base@.len() == BLOCK_SIZE,
        delta@.len() == BLOCK_SIZE,
    ensures
        r == round_activity(ctx@, round as int, base@, delta@),
{
    let other = xor_vec(base, delta);
    let out1 = round_transform_no_key(base, ctx, round);
    let out2 = round_transform_no_key(other.as_slice(), ctx, round);
    let d = xor_vec(out1.as_slice(), out2.as_slice());
    active_bytes(d.as_slice())
}

// ============================================================
// Tallies
// ============================================================

/// Smallest count (`usize::MAX` when there is none).
pub open spec fn tally_min(c: Seq<usize>) -> usize
    decreases c.len(),
{
    if c.len() == 0 {
        usize::MAX
    } else if c.last() < tally_min(c.drop_last()) {
        c.last()
    } else {
        tally_min(c.drop_last())
    }
}

/// Largest count (0 when there is none).
pub open spec fn tally_max(c: Seq<usize>) -> usize
    decreases c.len(),
{
    if c.len() == 0 {
        0
    } else if c.last() > tally_max(c.drop_last()) {
        c.last()
    } else {
        tally_max(c.drop_last())
    }
}

/// Sum of the counts.
pub open spec fn tally_sum(c: Seq<usize>) -> nat
    decreases c.len(),
{
    if c.len() == 0 {
        0
    } else {
        tally_sum(c.drop_last()) + c.last() as nat
    }
}

/// How many counts are zero.
pub open spec fn tally_zeros(c: Seq<usize>) -> nat
    decreases c.len(),
{
    if c.len() == 0 {
        0
    } else {
        tally_zeros(c.drop_last()) + if c.last() == 0 {
            1nat
        } else {
            0nat
        }
    }
}

/// Minimum, maximum, sum and number of zeros of the output activity seen
/// over a run of trials.
#[derive(Debug, Clone, Copy, PartialEq, Eq, Structural)]
pub struct ActivityTally {
    pub min_active_out: usize,
    pub max_active_out: usize,
    pub sum_active_out: usize,
    pub zero_output_count: usize,
}

/// `t` is the tally of the counts `c`.
pub open spec fn tally_of(t: ActivityTally, c: Seq<usize>) -> bool {
    &&& t.min_active_out == tally_min(c)
    &&& t.max_active_out == tally_max(c)
    &&& t.sum_active_out == tally_sum(c)
    &&& t.zero_output_count == tally_zeros(c)
}

/// The sum over a prefix is at most the sum over the whole.
proof fn lemma_tally_sum_prefix(c: Seq<usize>, i: int)
    requires
        0 <= i <= c.len(),
    ensures
        tally_sum(c.subrange(0, i)) <= tally_sum(c),
    decreases c.len() - i,
{
    if i < c.len() {
        lemma_tally_sum_prefix(c, i + 1);
        assert(c.subrange(0, i + 1).drop_last() =~= c.subrange(0, i));
    } else {
        assert(c.subrange(0, i) =~= c);
    }
}

/// Counts each at most `b` sum to at most `b` times their number.
proof fn lemma_tally_sum_bound(c: Seq<usize>, b: nat)
    requires
        forall|i: int| 0 <= i < c.len() ==> c[i] <= b,
    ensures
        tally_sum(c) <= b * c.len(),
    decreases c.len(),
{
    if c.len() > 0 {
        lemma_tally_sum_bound(c.drop_last(), b);
        assert(b * c.len() == b * (c.len() - 1) + b) by (nonlinear_arith);
    }
}

/// The smallest and largest counts of a non-empty run are counts of the
/// run, with no count below the smallest or above the largest; an empty
/// run has minimum `usize::MAX` and maximum 0.
pub proof fn lemma_tally_extremes(c: Seq<usize>)
    ensures
        c.len() == 0 ==> tally_min(c) == usize::MAX && tally_max(c) == 0,
        c.len() > 0 ==> exists|i: int| 0 <= i < c.len() && c[i] == tally_min(c),
        c.len() > 0 ==> exists|i: int| 0 <= i < c.len() && c[i] == tally_max(c),
        forall|i: int| 0 <= i < c.len() ==> tally_min(c) <= #[trigger] c[i] <= tally_max(c),
    decreases c.len(),
{
    if c.len() > 0 {
        let p = c.drop_last();
        lemma_tally_extremes(p);
        let last = c.len() - 1;
        assert(c[last] == c.last());
        if p.len() > 0 {
            let imin = choose|i: int| 0 <= i < p.len() && p[i] == tally_min(p);
            let imax = choose|i: int| 0 <= i < p.len() && p[i] == tally_max(p);
            assert(c[imin] == p[imin] && c[imax] == p[imax]);
        }
        assert forall|i: int| 0 <= i < c.len() implies tally_min(c) <= #[trigger] c[i] <= tally_max(c) by {
            if i < last {
                assert(c[i] == p[i]);
            }
        }
    }
}

/// The positions of the zero counts of a run.
pub open spec fn zero_count_positions(c: Seq<usize>) -> Set<int> {
    Set::new(|i: int| 0 <= i < c.len() && c[i] == 0)
}

/// The zero tally of a run is the number of its zero counts, and its sum
/// tally adds the counts: a single count sums to itself and the sum of two
/// runs one after the other is the sum of their sums.
pub proof fn lemma_tally_zeros_and_sum(c: Seq<usize>, d: Seq<usize>, x: usize)
    ensures
        zero_count_positions(c).finite(),
        tally_zeros(c) == zero_count_positions(c).len(),
        tally_sum(seq![x]) == x,
        tally_sum(c + d) == tally_sum(c) + tally_sum(d),
    decreases c.len() + d.len(),
{
    assert(seq![x].drop_last() =~= Seq::<usize>::empty());
    assert(tally_sum(seq![x].drop_last()) == 0);
    assert(seq![x].last() == x);
    if c.len() == 0 {
        assert(zero_count_positions(c) =~= Set::<int>::empty());
        assert(c + d =~= d);
    } else {
        let p = c.drop_last();
        let j = c.len() - 1;
        lemma_tally_zeros_and_sum(p, d, x);
        assert(!zero_count_positions(p).contains(j));
        if c.last() == 0 {
            assert(zero_count_positions(c) =~= zero_count_positions(p).insert(j));
        } else {
            assert(zero_count_positions(c) =~= zero_count_positions(p));
        }
    }
    if d.len() > 0 {
        lemma_tally_zeros_and_sum(c, d.drop_last(), x);
        assert((c + d).drop_last() =~= c + d.drop_last());
        assert((c + d).last() == d.last());
    } else {
        assert(c + d =~= c);
    }
}

/// The tally of `counts`.
pub fn tally_counts(counts: &[usize]) -> (t: ActivityTally)
    requires
        tally_sum(counts@) <= usize::MAX,
    ensures
        tally_of(t, counts@),
        t.zero_output_count == zero_count_positions(counts@).len(),
        counts@.len() > 0 ==> exists|i: int| 0 <= i < counts@.len() && counts@[i] == t.min_active_out,
        counts@.len() > 0 ==> exists|i: int| 0 <= i < counts@.len() && counts@[i] == t.max_active_out,
        forall|i: int| 0 <= i < counts@.len() ==> t.min_active_out <= #[trigger] counts@[i] <= t.max_active_out,
{
    proof {
        lemma_tally_extremes(counts@);
        lemma_tally_zeros_and_sum(counts@, Seq::empty(), 0);
    }
    let mut t = ActivityTally { min_active_out: usize::MAX, max_active_out: 0, sum_active_out: 0, zero_output_count: 0 };
    let mut i: usize = 0;
    while i < counts.len()
        invariant
            i <= counts@.len(),
            tally_sum(counts@) <= usize::MAX,
            tally_of(t, counts@.subrange(0, i as int)),
            t.zero_output_count <= i,
        decreases counts@.len() - i,
    {
        let c = counts[i];
        proof {
            let pre = counts@.subrange(0, i as int);
            let next = counts@.subrange(0, i + 1);
            assert(next.drop_last() =~= pre);
            assert(next.last() == c);
            lemma_tally_sum_prefix(counts@, i + 1);
        }
        if c < t.min_active_out {
            t.min_active_out = c;
        }
        if c > t.max_active_out {
            t.max_active_out = c;
        }
        t.sum_active_out = t.sum_active_out + c;
        if c == 0 {
            t.zero_output_count = t.zero_output_count + 1;
        }
        i += 1;
    }
    proof {
        assert(counts@.subrange(0, counts@.len() as int) =~= counts@);
    }
    t
}

// ============================================================
// Sampled tallies of one transformer and one round
// ============================================================

/// `c` is the output activity of `t` for some base state and some
/// difference with `min(active_in, 8)` nonzero bytes.
pub open spec fn transformer_sample(t: TransformerModel, active_in: nat, c: usize) -> bool {
    exists|base: Seq<u8>, delta: Seq<u8>|
        base.len() == HALF_SIZE && difference_shape(delta, HALF_SIZE as nat, active_in) && c
            == #[trigger] transformer_activity(t, base, delta)
}

/// `c` is the output activity of keyless round `r` of `m` for some base
/// block and some difference with `min(active_in, 16)` nonzero bytes.
pub open spec fn round_sample(m: ContextModel, r: int, active_in: nat, c: usize) -> bool {
    exists|base: Seq<u8>, delta: Seq<u8>|
        base.len() == BLOCK_SIZE && difference_shape(delta, BLOCK_SIZE as nat, active_in) && c
            == #[trigger] round_activity(m, r, base, delta)
}

/// Tally of `trials` random trials of one transformer: each trial takes a
/// random base state and a random difference with `active_in` nonzero
/// bytes and counts the nonzero bytes of the output difference.
pub fn transformer_expansion_tally(transformer: &GeneratedTransformer, active_in: usize, trials: usize) -> (t:
    ActivityTally)
    requires
        transformer_wf(transformer@, HALF_SIZE as nat),
        trials <= usize::MAX / HALF_SIZE,
    ensures
        exists|counts: Seq<usize>|
            {
                &&& counts.len() == trials
                &&& forall|i: int|
                    0 <= i < trials ==> transformer_sample(transformer@, active_in as nat, #[trigger] counts[i])
                &&& tally_of(t, counts)
            },
{
    let ghost tm = transformer@;
    let mut counts: Vec<usize> = Vec::new();
    let mut i: usize = 0;
    while i < trials
        invariant
            i <= trials,
            tm == transformer@,
            transformer_wf(tm, HALF_SIZE as nat),
            counts@.len() == i,
            forall|j: int| 0 <= j < i ==> transformer_sample(tm, active_in as nat, #[trigger] counts@[j]),
            forall|j: int| 0 <= j < i ==> #[trigger] counts@[j] <= HALF_SIZE,
        decreases trials - i,
    {
        let base = random_bytes(HALF_SIZE);
        let delta = random_difference(HALF_SIZE, active_in);
        let c = transformer_output_activity(transformer, base.as_slice(), delta.as_slice());
        proof {
            let y1 = transform_spec(base@, tm);
            let y2 = transform_spec(xor_bytes(base@, delta@), tm);
            lemma_transform_len(base@, tm);
            lemma_transform_len(xor_bytes(base@, delta@), tm);
            lemma_active_below_bound(xor_bytes(y1, y2), xor_bytes(y1, y2).len());
            assert(transformer_sample(tm, active_in as nat, c));
        }
        counts.push(c);
        i += 1;
    }
    proof {
        lemma_tally_sum_bound(counts@, HALF_SIZE as nat);
        assert(HALF_SIZE * trials <= usize::MAX) by (nonlinear_arith)
            requires
                trials <= usize::MAX / HALF_SIZE,
        ;
    }
    tally_counts(counts.as_slice())
}

/// The nonzero bytes below `n` number zero exactly when every byte there
/// is zero.
proof fn lemma_active_below_zero(s: Seq<u8>, n: nat)
    ensures
        active_below(s, n) == 0 <==> forall|i: int| 0 <= i < n ==> s[i] == 0,
    decreases n,
{
    if n > 0 {
        lemma_active_below_zero(s, (n - 1) as nat);
        if active_below(s, n) == 0 {
            assert forall|i: int| 0 <= i < n implies s[i] == 0 by {
                if i < n - 1 {
                    assert(active_below(s, (n - 1) as nat) == 0);
                }
            }
        }
    }
}

/// A keyless round is injective, so a nonzero input difference never
/// vanishes: for a context whose rounds hold their own inverse tables,
/// every sampled round activity with at least one active input byte lies
/// in `1..=16`.
pub proof fn lemma_round_sample_nonzero(m: ContextModel, r: int, active_in: nat, c: usize)
    requires
        context_wf(m),
        context_consistent(m),
        0 <= r < ROUNDS,
        active_in >= 1,
        round_sample(m, r, active_in, c),
    ensures
        1 <= c <= BLOCK_SIZE,
{
    let (base, delta) = choose|base: Seq<u8>, delta: Seq<u8>|
        base.len() == BLOCK_SIZE && difference_shape(delta, BLOCK_SIZE as nat, active_in) && c
            == #[trigger] round_activity(m, r, base, delta);
    let y = xor_bytes(base, delta);
    let o1 = round_no_key_spec(base, m, r);
    let o2 = round_no_key_spec(y, m, r);
    lemma_round_lens(base, m, r);
    lemma_round_lens(y, m, r);
    let d = xor_bytes(o1, o2);
    lemma_active_below_bound(d, d.len());
    if c == 0 {
        lemma_active_below_zero(d, d.len());
        assert forall|i: int| 0 <= i < BLOCK_SIZE implies o1[i] == o2[i] by {
            assert(d[i] == 0);
            crate::exact::lemma_xor_u8_facts(o1[i], o2[i], 0, o2[i]);
            crate::exact::lemma_xor_u8_facts(o2[i], 0, 0, 0);
        }
        assert(o1 =~= o2);
        lemma_round_no_key_injective(base, y, m, r);
        assert forall|i: int| 0 <= i < BLOCK_SIZE implies delta[i] == 0 by {
            assert(y[i] == base[i] ^ delta[i]);
            crate::exact::lemma_xor_u8_facts(base[i], base[i], 0, delta[i]);
            crate::exact::lemma_xor_u8_facts(delta[i], 0, 0, 0);
        }
        lemma_active_below_zero(delta, BLOCK_SIZE as nat);
    }
}

/// Counts that each lie in `1..=b` include no zero, and their minimum and
/// maximum lie in `1..=b`.
proof fn lemma_tally_positive(c: Seq<usize>, b: usize)
    requires
        forall|i: int| 0 <= i < c.len() ==> 1 <= #[trigger] c[i] <= b,
    ensures
        tally_zeros(c) == 0,
        c.len() > 0 ==> 1 <= tally_min(c) <= tally_max(c) <= b,
    decreases c.len(),
{
    if c.len() > 0 {
        let p = c.drop_last();
        assert forall|i: int| 0 <= i < p.len() implies 1 <= #[trigger] p[i] <= b by {
            assert(p[i] == c[i]);
        }
        lemma_tally_positive(p, b);
        let x = c.last();
        assert(1 <= x <= b);
        if p.len() == 0 {
            assert(tally_min(p) == usize::MAX && tally_max(p) == 0);
            assert(tally_min(c) == x);
            assert(tally_max(c) == x);
        } else {
            assert(tally_min(c) <= x && tally_min(c) <= tally_min(p));
            assert(tally_max(c) >= tally_max(p));
        }
    }
}

/// Tally of `trials` random trials of keyless round `round` of `ctx`:
/// each trial takes a random base block and a random difference with
/// `active_in` nonzero bytes and counts the nonzero bytes of the output
/// difference.
pub fn round_expansion_tally(ctx: &CipherContext, round: usize, active_in: usize, trials: usize) -> (t: ActivityTally)
    requires
        context_wf(ctx@),
        round < ROUNDS,
        trials <= usize::MAX / BLOCK_SIZE,
    ensures
        exists|counts: Seq<usize>|
            {
                &&& counts.len() == trials
                &&& forall|i: int|
                    0 <= i < trials ==> round_sample(ctx@, round as int, active_in as nat, #[trigger] counts[i])
                &&& tally_of(t, counts)
            },
        context_consistent(ctx@) && active_in >= 1 ==> {
            &&& t.zero_output_count == 0
            &&& trials >= 1 ==> 1 <= t.min_active_out <= t.max_active_out <= BLOCK_SIZE
        },
{
    let ghost m = ctx@;
    let mut counts: Vec<usize> = Vec::new();
    let mut i: usize = 0;
    while i < trials
        invariant
            i <= trials,
            m == ctx@,
            context_wf(m),
            round < ROUNDS,
            counts@.len() == i,
            forall|j: int| 0 <= j < i ==> round_sample(m, round as int, active_in as nat, #[trigger] counts@[j]),
            forall|j: int| 0 <= j < i ==> #[trigger] counts@[j] <= BLOCK_SIZE,
        decreases trials - i,
    {
        let base = random_bytes(BLOCK_SIZE);
        let delta = random_difference(BLOCK_SIZE, active_in);
        let c = round_output_activity(ctx, round, base.as_slice(), delta.as_slice());
        proof {
            let o1 = round_no_key_spec(base@, m, round as int);
            let o2 = round_no_key_spec(xor_bytes(base@, delta@), m, round as int);
            lemma_round_lens(base@, m, round as int);
            lemma_round_lens(xor_bytes(base@, delta@), m, round as int);
            lemma_active_below_bound(xor_bytes(o1, o2), xor_bytes(o1, o2).len());
            assert(round_sample(m, round as int, active_in as nat, c));
        }
        counts.push(c);
        i += 1;
    }
    proof {
        lemma_tally_sum_bound(counts@, BLOCK_SIZE as nat);
        assert(BLOCK_SIZE * trials <= usize::MAX) by (nonlinear_arith)
            requires
                trials <= usize::MAX / BLOCK_SIZE,
        ;
        if context_consistent(m) && active_in >= 1 {
            assert forall|j: int| 0 <= j < counts@.len() implies 1 <= #[trigger] counts@[j] <= BLOCK_SIZE by {
                lemma_round_sample_nonzero(m, round as int, active_in as nat, counts@[j]);
            }
            lemma_tally_positive(counts@, BLOCK_SIZE);
        }
    }
    tally_counts(counts.as_slice())
}

// ============================================================
// Differential trails over several rounds
// ============================================================

/// The first `n` keyless rounds of `m` applied to `x`, round 0 first.
pub open spec fn keyless_rounds(x: Seq<u8>, m: ContextModel, n: nat) -> Seq<u8>
    decreases n,
{
    if n == 0 {
        x
    } else {
        round_no_key_spec(keyless_rounds(x, m, (n - 1) as nat), m, n - 1)
    }
}

/// Nonzero bytes of the difference after keyless rounds `0..=r`.
pub open spec fn trail_activity(m: ContextModel, base: Seq<u8>, delta: Seq<u8>, r: int) -> nat {
    active_count(
        xor_bytes(
            keyless_rounds(base, m, (r + 1) as nat),
            keyless_rounds(xor_bytes(base, delta), m, (r + 1) as nat),
        ),
    )
}

/// `trace` holds the activity after each of the first `rounds` keyless
/// rounds for the pair `(base, base XOR delta)`.
pub open spec fn trail_of(trace: Seq<usize>, m: ContextModel, base: Seq<u8>, delta: Seq<u8>, rounds: nat) -> bool {
    &&& trace.len() == rounds
    &&& forall|r: int| 0 <= r < rounds ==> #[trigger] trace[r] == trail_activity(m, base, delta, r)
}

/// `trace` is the trail of some base block and some difference with
/// `min(active_in, 16)` nonzero bytes.
pub open spec fn trail_sample(m: ContextModel, active_in: nat, rounds: nat, trace: Seq<usize>) -> bool {
    exists|base: Seq<u8>, delta: Seq<u8>|
        base.len() == BLOCK_SIZE && difference_shape(delta, BLOCK_SIZE as nat, active_in) && #[trigger] trail_of(
            trace,
            m,
            base,
            delta,
            rounds,
        )
}

/// Per-round activity of the pair `(base, base XOR delta)` through the
/// first `rounds` keyless rounds of `ctx` (the round-key XOR never changes
/// a difference).
pub fn trail_from(ctx: &CipherContext, base: &[u8], delta: &[u8], rounds: usize) -> (trace: Vec<usize>)
    requires
        context_wf(ctx@),
        base@.len() == BLOCK_SIZE,
        delta@.len() == BLOCK_SIZE,
        rounds <= ROUNDS,
    ensures
        trail_of(trace@, ctx@, base@, delta@, rounds as nat),
        forall|r: int| 0 <= r < rounds ==> #[trigger] trace@[r] <= BLOCK_SIZE,
{
    let ghost m = ctx@;
    let ghost other = xor_bytes(base@, delta@);
    let mut cur1: Vec<u8> = Vec::new();
    crate::kdf::append_bytes(&mut cur1, base);
    let mut cur2 = xor_vec(base, delta);
    let mut trace: Vec<usize> = Vec::new();
    let mut r: usize = 0;
    while r < rounds
        invariant
            r <= rounds,
            rounds <= ROUNDS,
            m == ctx@,
            context_wf(m),
            base@.len() == BLOCK_SIZE,
            other == xor_bytes(base@, delta@),
            cur1@ == keyless_rounds(base@, m, r as nat),
            cur2@ == keyless_rounds(other, m, r as nat),
            cur1@.len() == BLOCK_SIZE,
            cur2@.len() == BLOCK_SIZE,
            trace@.len() == r,
            forall|j: int| 0 <= j < r ==> #[trigger] trace@[j] == trail_activity(m, base@, delta@, j),
            forall|j: int| 0 <= j < r ==> #[trigger] trace@[j] <= BLOCK_SIZE,
        decreases rounds - r,
    {
        cur1 = round_transform_no_key(cur1.as_slice(), ctx, r);
        cur2 = round_transform_no_key(cur2.as_slice(), ctx, r);
        let d = xor_vec(cur1.as_slice(), cur2.as_slice());
        let c = active_bytes(d.as_slice());
        proof {
            lemma_active_below_bound(d@, d@.len());
        }
        trace.push(c);
        r += 1;
    }
    trace
}

/// One random differential trail: a random base block and a random
/// difference with `active_in` nonzero bytes, followed through the first
/// `rounds` keyless rounds of `ctx`.
pub fn differential_trail(ctx: &CipherContext, active_in: usize, rounds: usize) -> (trace: Vec<usize>)
    requires
        context_wf(ctx@),
        rounds <= ROUNDS,
    ensures
        trail_sample(ctx@, active_in as nat, rounds as nat, trace@),
        forall|r: int| 0 <= r < rounds ==> #[trigger] trace@[r] <= BLOCK_SIZE,
{
    let base = random_bytes(BLOCK_SIZE);
    let delta = random_difference(BLOCK_SIZE, active_in);
    let trace = trail_from(ctx, base.as_slice(), delta.as_slice(), rounds);
    proof {
        assert(trail_of(trace@, ctx@, base@, delta@, rounds as nat));
    }
    trace
}

// ============================================================
// Tallies of many trails
// ============================================================

/// The values of a list of traces.
pub open spec fn trace_views(traces: Seq<Vec<usize>>) -> Seq<Seq<usize>> {
    traces.map_values(|v: Vec<usize>| v@)
}

/// Entry `r` of every trace.
pub open spec fn trace_column(traces: Seq<Seq<usize>>, r: int) -> Seq<usize> {
    Seq::new(traces.len(), |i: int| traces[i][r])
}

/// The 1-based index of the first round, from round `r` on, whose minimum
/// activity is the whole block.
pub open spec fn first_full_from(mins: Seq<usize>, r: nat) -> Option<usize>
    decreases mins.len() - r,
{
    if r >= mins.len() {
        None
    } else if mins[r as int] == BLOCK_SIZE {
        Some((r + 1) as usize)
    } else {
        first_full_from(mins, r + 1)
    }
}

/// The first fully active round from `r` on is the least index `q >= r`
/// with `mins[q] == 16`, reported 1-based; it is `None` exactly when no
/// such round exists.
pub proof fn lemma_first_full_is_least(mins: Seq<usize>, r: nat)
    requires
        mins.len() <= usize::MAX,
    ensures
        match first_full_from(mins, r) {
            Some(n) => {
                &&& r < n <= mins.len()
                &&& mins[n - 1] == BLOCK_SIZE
                &&& forall|q: int| r <= q < n - 1 ==> #[trigger] mins[q] != BLOCK_SIZE
            },
            None => forall|q: int| r <= q < mins.len() ==> #[trigger] mins[q] != BLOCK_SIZE,
        },
    decreases mins.len() - r,
{
    if r < mins.len() && mins[r as int] != BLOCK_SIZE {
        lemma_first_full_is_least(mins, r + 1);
    }
}

/// Per-round minimum, maximum and sum of the activity over a set of
/// trails, and the first round at which every trail was fully active.
pub struct TrailTally {
    pub per_round_min: Vec<usize>,
    pub per_round_max: Vec<usize>,
    pub per_round_sum: Vec<usize>,
    /// 1-based index of the first round whose minimum is `BLOCK_SIZE`.
    pub min_full_active_round: Option<usize>,
}

/// `t` is the tally of the first `rounds` entries of `traces`.
pub open spec fn trail_tally_of(t: TrailTally, traces: Seq<Seq<usize>>, rounds: nat) -> bool {
    &&& t.per_round_min@.len() == rounds
    &&& t.per_round_max@.len() == rounds
    &&& t.per_round_sum@.len() == rounds
    &&& forall|r: int|
        0 <= r < rounds ==> {
            &&& #[trigger] t.per_round_min@[r] == tally_min(trace_column(traces, r))
            &&& t.per_round_max@[r] == tally_max(trace_column(traces, r))
            &&& t.per_round_sum@[r] == tally_sum(trace_column(traces, r))
        }
    &&& t.min_full_active_round == first_full_from(t.per_round_min@, 0)
}

/// Appending a minimum leaves an earlier full round in place, and
/// otherwise makes the new round the first full one when it is full.
proof fn lemma_first_full_push(mins: Seq<usize>, x: usize, k: nat)
    requires
        k <= mins.len(),
        mins.len() < usize::MAX,
    ensures
        first_full_from(mins.push(x), k) == match first_full_from(mins, k) {
            Some(n) => Some(n),
            None => if x == BLOCK_SIZE {
                Some((mins.len() + 1) as usize)
            } else {
                None
            },
        },
    decreases mins.len() - k,
{
    if k < mins.len() {
        assert(mins.push(x)[k as int] == mins[k as int]);
        lemma_first_full_push(mins, x, k + 1);
    } else {
        assert(mins.push(x)[k as int] == x);
        assert(first_full_from(mins.push(x), k + 1) == None::<usize>);
    }
}

/// Entry `r` of every trace, computed.
fn column_of(traces: &Vec<Vec<usize>>, r: usize) -> (col: Vec<usize>)
    requires
        forall|i: int| 0 <= i < traces@.len() ==> r < (#[trigger] traces@[i])@.len(),
    ensures
        col@ == trace_column(trace_views(traces@), r as int),
{
    let mut col: Vec<usize> = Vec::new();
    let mut i: usize = 0;
    while i < traces.len()
        invariant
            i <= traces@.len(),
            forall|j: int| 0 <= j < traces@.len() ==> r < (#[trigger] traces@[j])@.len(),
            col@ == trace_column(trace_views(traces@), r as int).subrange(0, i as int),
        decreases traces@.len() - i,
    {
        col.push(traces[i][r]);
        i += 1;
        proof {
            assert(col@ =~= trace_column(trace_views(traces@), r as int).subrange(0, i as int));
        }
    }
    proof {
        assert(col@ =~= trace_column(trace_views(traces@), r as int));
    }
    col
}

/// The tally of the first `rounds` entries of `traces`.
pub fn tally_trails(traces: &Vec<Vec<usize>>, rounds: usize) -> (t: TrailTally)
    requires
        forall|i: int| 0 <= i < traces@.len() ==> (#[trigger] traces@[i])@.len() == rounds,
        forall|r: int| 0 <= r < rounds ==> tally_sum(#[trigger] trace_column(trace_views(traces@), r)) <= usize::MAX,
    ensures
        trail_tally_of(t, trace_views(traces@), rounds as nat),
        match t.min_full_active_round {
            Some(n) => {
                &&& 1 <= n <= rounds
                &&& t.per_round_min@[n - 1] == BLOCK_SIZE
                &&& forall|q: int| 0 <= q < n - 1 ==> #[trigger] t.per_round_min@[q] != BLOCK_SIZE
            },
            None => forall|q: int| 0 <= q < rounds ==> #[trigger] t.per_round_min@[q] != BLOCK_SIZE,
        },
{
    let ghost tv = trace_views(traces@);
    let mut mins: Vec<usize> = Vec::new();
    let mut maxs: Vec<usize> = Vec::new();
    let mut sums: Vec<usize> = Vec::new();
    let mut first: Option<usize> = None;
    let mut r: usize = 0;
    while r < rounds
        invariant
            r <= rounds,
            tv == trace_views(traces@),
            forall|i: int| 0 <= i < traces@.len() ==> (#[trigger] traces@[i])@.len() == rounds,
            forall|q: int| 0 <= q < rounds ==> tally_sum(#[trigger] trace_column(tv, q)) <= usize::MAX,
            mins@.len() == r,
            maxs@.len() == r,
            sums@.len() == r,
            forall|q: int|
                0 <= q < r ==> {
                    &&& #[trigger] mins@[q] == tally_min(trace_column(tv, q))
                    &&& maxs@[q] == tally_max(trace_column(tv, q))
                    &&& sums@[q] == tally_sum(trace_column(tv, q))
                },
            first == first_full_from(mins@, 0),
        decreases rounds - r,
    {
        let col = column_of(traces, r);
        let t = tally_counts(col.as_slice());
        proof {
            lemma_first_full_push(mins@, t.min_active_out, 0);
        }
        if first.is_none() && t.min_active_out == BLOCK_SIZE {
            first = Some(r + 1);
        }
        mins.push(t.min_active_out);
        maxs.push(t.max_active_out);
        sums.push(t.sum_active_out);
        r += 1;
    }
    proof {
        lemma_first_full_is_least(mins@, 0);
    }
    TrailTally { per_round_min: mins, per_round_max: maxs, per_round_sum: sums, min_full_active_round: first }
}

/// Tally of `trials` random differential trails (see
/// `differential_trail`) through the first `rounds` keyless rounds.
pub fn sampled_trail_tally(ctx: &CipherContext, active_in: usize, rounds: usize, trials: usize) -> (t: TrailTally)
    requires
        context_wf(ctx@),
        rounds <= ROUNDS,
        trials <= usize::MAX / BLOCK_SIZE,
    ensures
        exists|traces: Seq<Seq<usize>>|
            {
                &&& traces.len() == trials
                &&& forall|i: int|
                    0 <= i < trials ==> trail_sample(ctx@, active_in as nat, rounds as nat, #[trigger] traces[i])
                &&& trail_tally_of(t, traces, rounds as nat)
            },
{
    let ghost m = ctx@;
    let mut traces: Vec<Vec<usize>> = Vec::new();
    let mut i: usize = 0;
    while i < trials
        invariant
            i <= trials,
            m == ctx@,
            context_wf(m),
            rounds <= ROUNDS,
            traces@.len() == i,
            forall|j: int|
                0 <= j < i ==> trail_sample(m, active_in as nat, rounds as nat, (#[trigger] traces@[j])@),
            forall|j: int| 0 <= j < i ==> (#[trigger] traces@[j])@.len() == rounds,
            forall|j: int, q: int| 0 <= j < i && 0 <= q < rounds ==> #[trigger] traces@[j]@[q] <= BLOCK_SIZE,
        decreases trials - i,
    {
        let trace = differential_trail(ctx, active_in, rounds);
        traces.push(trace);
        i += 1;
    }
    let ghost tv = trace_views(traces@);
    proof {
        assert(BLOCK_SIZE * trials <= usize::MAX) by (nonlinear_arith)
            requires
                trials <= usize::MAX / BLOCK_SIZE,
        ;
        assert forall|q: int| 0 <= q < rounds implies tally_sum(#[trigger] trace_column(tv, q)) <= usize::MAX by {
            let col = trace_column(tv, q);
            assert forall|j: int| 0 <= j < col.len() implies col[j] <= BLOCK_SIZE by {
                assert(traces@[j]@[q] <= BLOCK_SIZE);
            }
            lemma_tally_sum_bound(col, BLOCK_SIZE as nat);
        }
        assert forall|j: int| 0 <= j < trials implies trail_sample(
            m,
            active_in as nat,
            rounds as nat,
            #[trigger] tv[j],
        ) by {
            assert(trail_sample(m, active_in as nat, rounds as nat, traces@[j]@));
        }
    }
    tally_trails(&traces, rounds)
}

} // verus!
