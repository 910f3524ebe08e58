//! Structural diagnostics of a candidate transformer topology and the
//! constraints a topology is accepted under.
//!
//! Dependency sets over the 8 input positions are held as 8-bit masks
//! (bit `i` set = input `i` belongs to the set). Usage ratios are exact
//! rationals `numerator / denominator`.

use crate::gf::bit_of;
use crate::transformer::{Connections, ConnectionsView, NodeView};
use vstd::prelude::*;

verus! {

// ============================================================
// Rationals for usage ratios
// ============================================================

/// The rational number `numerator / denominator`.
#[derive(Clone, Copy, Debug)]
pub struct UsageRatio {
    pub numerator: u64,
    pub denominator: u64,
}

/// `a <= b` as rationals (cross-multiplied).
pub open spec fn ratio_le(a: UsageRatio, b: UsageRatio) -> bool {
    a.numerator as int * b.denominator as int <= b.numerator as int * a.denominator as int
}

/// `a > b` as rationals (cross-multiplied).
pub open spec fn ratio_gt(a: UsageRatio, b: UsageRatio) -> bool {
    !ratio_le(a, b)
}

fn ratio_le_exec(a: UsageRatio, b: UsageRatio) -> (r: bool)
    ensures
        r == ratio_le(a, b),
{
    let an = a.numerator as u128;
    let ad = a.denominator as u128;
    let bn = b.numerator as u128;
    let bd = b.denominator as u128;
    assert(an * bd <= u64::MAX as u128 * u64::MAX as u128) by (nonlinear_arith)
        requires
            an <= u64::MAX,
            bd <= u64::MAX,
    ;
    assert(bn * ad <= u64::MAX as u128 * u64::MAX as u128) by (nonlinear_arith)
        requires
            bn <= u64::MAX,
            ad <= u64::MAX,
    ;
    an * bd <= bn * ad
}

// ============================================================
// Diagnostics and constraints
// ============================================================

/// Structural report for one candidate topology.
#[derive(Clone, Debug)]
pub struct TopologyDiagnostics {
    pub attempt: u32,
    pub full_diffusion: bool,
    pub dead_inputs: Vec<usize>,
    /// Smallest, over every (layer, output_node), of the number of
    /// *distinct* sources feeding that output across all heads combined.
    pub min_node_fanin: usize,
    /// Worst-case (max_count / mean_count) over all layers of how often
    /// each of the HALF_SIZE input indices is selected as a source.
    pub max_usage_ratio: UsageRatio,
}

/// The value of a diagnostics report.
pub struct DiagnosticsModel {
    pub attempt: u32,
    pub full_diffusion: bool,
    pub dead_inputs: Seq<usize>,
    pub min_node_fanin: usize,
    pub max_usage_ratio: UsageRatio,
}

impl View for TopologyDiagnostics {
    type V = DiagnosticsModel;

    open spec fn view(&self) -> DiagnosticsModel {
        DiagnosticsModel {
            attempt: self.attempt,
            full_diffusion: self.full_diffusion,
            dead_inputs: self.dead_inputs@,
            min_node_fanin: self.min_node_fanin,
            max_usage_ratio: self.max_usage_ratio,
        }
    }
}

/// Acceptance criteria for a candidate topology.
#[derive(Clone, Debug)]
pub struct TopologyConstraints {
    /// Require every output byte, after `depth` layers, to structurally
    /// depend on every input byte of this transformer.
    pub require_full_diffusion: bool,
    /// Minimum acceptable `min_node_fanin`.
    pub min_node_fanin: usize,
    /// Maximum acceptable `max_usage_ratio`.
    pub max_usage_ratio: UsageRatio,
    /// Deterministic candidates to try before falling back to the
    /// best-scoring one seen so far.
    pub max_attempts: u32,
}

impl Default for TopologyConstraints {
    /// Full diffusion, fan-in at least 4 (half of HALF_SIZE), usage ratio
    /// at most 5/2, and 32 attempts.
    fn default() -> (c: Self)
        ensures
            c.require_full_diffusion,
            c.min_node_fanin == 4,
            c.max_usage_ratio.numerator == 5,
            c.max_usage_ratio.denominator == 2,
            c.max_attempts == 32,
    {
        TopologyConstraints {
            require_full_diffusion: true,
            min_node_fanin: 4,
            max_usage_ratio: UsageRatio { numerator: 5, denominator: 2 },
            max_attempts: 32,
        }
    }
}

/// The report satisfies the constraints.
pub open spec fn passes_spec(d: DiagnosticsModel, c: TopologyConstraints) -> bool {
    &&& (!c.require_full_diffusion || d.full_diffusion)
    &&& d.dead_inputs.len() == 0
    &&& d.min_node_fanin >= c.min_node_fanin
    &&& ratio_le(d.max_usage_ratio, c.max_usage_ratio)
}

/// The integer part `1000 I - 200 D + 10 F` of a report's score.
pub open spec fn score_base(d: DiagnosticsModel) -> int {
    (if d.full_diffusion {
        1000int
    } else {
        0int
    }) - 200 * d.dead_inputs.len() + 10 * d.min_node_fanin
}

/// `score(a) > score(b)`, where `score(d) = 1000 I - 200 D + 10 F - R`
/// compared as exact rationals.
pub open spec fn score_gt(a: DiagnosticsModel, b: DiagnosticsModel) -> bool {
    (score_base(a) * a.max_usage_ratio.denominator - a.max_usage_ratio.numerator)
        * b.max_usage_ratio.denominator > (score_base(b) * b.max_usage_ratio.denominator
        - b.max_usage_ratio.numerator) * a.max_usage_ratio.denominator
}

/// Reports whose scores fit comfortably in machine integers.
pub open spec fn diagnostics_bounded(d: DiagnosticsModel) -> bool {
    &&& d.dead_inputs.len() <= 8
    &&& d.min_node_fanin <= 8
    &&& 0 < d.max_usage_ratio.denominator <= 1000
    &&& d.max_usage_ratio.numerator <= 10000
}

impl TopologyDiagnostics {
    /// Whether the report satisfies `constraints`.
    pub fn passes(&self, constraints: &TopologyConstraints) -> (r: bool)
        ensures
            r == passes_spec(self@, *constraints),
    {
        (!constraints.require_full_diffusion || self.full_diffusion) && self.dead_inputs.len() == 0
            && self.min_node_fanin >= constraints.min_node_fanin && ratio_le_exec(
            self.max_usage_ratio,
            constraints.max_usage_ratio,
        )
    }

    /// Whether this report scores strictly higher than `other`.
    pub fn scores_above(&self, other: &TopologyDiagnostics) -> (r: bool)
        requires
            diagnostics_bounded(self@),
            diagnostics_bounded(other@),
        ensures
            r == score_gt(self@, other@),
    {
        let base_a: i64 = (if self.full_diffusion {
            1000i64
        } else {
            0i64
        }) - 200 * (self.dead_inputs.len() as i64) + 10 * (self.min_node_fanin as i64);
        let base_b: i64 = (if other.full_diffusion {
            1000i64
        } else {
            0i64
        }) - 200 * (other.dead_inputs.len() as i64) + 10 * (other.min_node_fanin as i64);
        let na = self.max_usage_ratio.numerator as i64;
        let da = self.max_usage_ratio.denominator as i64;
        let nb = other.max_usage_ratio.numerator as i64;
        let db = other.max_usage_ratio.denominator as i64;
        assert(-1600 <= base_a <= 1080 && -1600 <= base_b <= 1080);
        assert(-1600 * 1000 <= base_a * da <= 1080 * 1000) by (nonlinear_arith)
            requires
                -1600 <= base_a <= 1080,
                0 < da <= 1000,
        ;
        assert(-1600 * 1000 <= base_b * db <= 1080 * 1000) by (nonlinear_arith)
            requires
                -1600 <= base_b <= 1080,
                0 < db <= 1000,
        ;
        let sa = base_a * da - na;
        let sb = base_b * db - nb;
        assert(-2000000 * 1000 <= sa * db <= 2000000 * 1000) by (nonlinear_arith)
            requires
                -2000000 <= sa <= 2000000,
                0 < db <= 1000,
        ;
        assert(-2000000 * 1000 <= sb * da <= 2000000 * 1000) by (nonlinear_arith)
            requires
                -2000000 <= sb <= 2000000,
                0 < da <= 1000,
        ;
        sa * db > sb * da
    }
}

} // verus!

verus! {

// ============================================================
// Structural dependency masks
// ============================================================

/// OR of `dep[src[j]]` over `j < k`.
pub open spec fn sources_or(dep: Seq<u8>, src: Seq<usize>, k: nat) -> u8
    decreases k,
{
    if k == 0 {
        0
    } else {
        sources_or(dep, src, (k - 1) as nat) | dep[src[k - 1] as int]
    }
}

/// OR over heads `< h` of the masks of node `o`'s sources.
pub open spec fn heads_or(dep: Seq<u8>, layer: Seq<Seq<NodeView>>, h: nat, o: int) -> u8
    decreases h,
{
    if h == 0 {
        0
    } else {
        heads_or(dep, layer, (h - 1) as nat, o) | sources_or(
            dep,
            layer[h - 1][o].0,
            layer[h - 1][o].0.len(),
        )
    }
}

/// The mask of the single input `i`.
pub open spec fn unit_masks() -> Seq<u8> {
    Seq::new(8, |i: int| (1u8 << (i as u8)) as u8)
}

/// Dependency masks after one layer: output `o` depends on everything its
/// sources (over all heads) depended on.
pub open spec fn dep_layer(dep: Seq<u8>, layer: Seq<Seq<NodeView>>, heads: nat) -> Seq<u8> {
    Seq::new(8, |o: int| heads_or(dep, layer, heads, o))
}

/// For each output position, the mask of input positions that could
/// structurally influence it after the first `n` layers.
pub open spec fn dep_masks(conns: ConnectionsView, heads: nat, n: nat) -> Seq<u8>
    decreases n,
{
    if n == 0 {
        unit_masks()
    } else {
        dep_layer(dep_masks(conns, heads, (n - 1) as nat), conns[n - 1], heads)
    }
}

/// OR of the first `n` masks.
pub open spec fn masks_or(m: Seq<u8>, n: nat) -> u8
    decreases n,
{
    if n == 0 {
        0
    } else {
        masks_or(m, (n - 1) as nat) | m[n - 1]
    }
}

/// The inputs `< n` whose bit is clear in `reach`, ascending.
pub open spec fn unreached_below(reach: u8, n: nat) -> Seq<usize>
    decreases n,
{
    if n == 0 {
        Seq::empty()
    } else if !bit_of(reach, n - 1) {
        unreached_below(reach, (n - 1) as nat).push((n - 1) as usize)
    } else {
        unreached_below(reach, (n - 1) as nat)
    }
}

/// Number of set bits of a byte.
pub open spec fn popcount8(m: u8) -> nat {
    ((m & 1u8) + ((m >> 1u8) & 1u8) + ((m >> 2u8) & 1u8) + ((m >> 3u8) & 1u8) + ((m >> 4u8) & 1u8) + ((m
        >> 5u8) & 1u8) + ((m >> 6u8) & 1u8) + ((m >> 7u8) & 1u8)) as nat
}

/// Number of distinct sources feeding node `o` of a layer over all heads.
pub open spec fn node_fanin(layer: Seq<Seq<NodeView>>, heads: nat, o: int) -> nat {
    popcount8(heads_or(unit_masks(), layer, heads, o))
}

/// Smallest fan-in over nodes `< n` of a layer (`usize::MAX` for none).
pub open spec fn layer_min_fanin(layer: Seq<Seq<NodeView>>, heads: nat, n: nat) -> nat
    decreases n,
{
    if n == 0 {
        usize::MAX as nat
    } else {
        let prev = layer_min_fanin(layer, heads, (n - 1) as nat);
        let f = node_fanin(layer, heads, n - 1);
        if f < prev {
            f
        } else {
            prev
        }
    }
}

/// Smallest fan-in over every node of the first `n` layers.
pub open spec fn min_fanin(conns: ConnectionsView, heads: nat, n: nat) -> nat
    decreases n,
{
    if n == 0 {
        usize::MAX as nat
    } else {
        let prev = min_fanin(conns, heads, (n - 1) as nat);
        let f = layer_min_fanin(conns[n - 1], heads, 8);
        if f < prev {
            f
        } else {
            prev
        }
    }
}

// ============================================================
// Source usage
// ============================================================

/// Occurrences of `s` among the first `k` entries of `src`.
pub open spec fn occurrences(src: Seq<usize>, s: int, k: nat) -> nat
    decreases k,
{
    if k == 0 {
        0
    } else {
        occurrences(src, s, (k - 1) as nat) + if src[k - 1] == s {
            1nat
        } else {
            0nat
        }
    }
}

/// Uses of source `s` by nodes `< o` of one head.
pub open spec fn nodes_usage(head: Seq<NodeView>, s: int, o: nat) -> nat
    decreases o,
{
    if o == 0 {
        0
    } else {
        nodes_usage(head, s, (o - 1) as nat) + occurrences(head[o - 1].0, s, head[o - 1].0.len())
    }
}

/// Uses of source `s` by heads `< h` of a layer.
pub open spec fn usage(layer: Seq<Seq<NodeView>>, s: int, h: nat) -> nat
    decreases h,
{
    if h == 0 {
        0
    } else {
        usage(layer, s, (h - 1) as nat) + nodes_usage(layer[h - 1], s, 8)
    }
}

/// Sum of the usage counts of sources `< n`.
pub open spec fn usage_total(layer: Seq<Seq<NodeView>>, heads: nat, n: nat) -> nat
    decreases n,
{
    if n == 0 {
        0
    } else {
        usage_total(layer, heads, (n - 1) as nat) + usage(layer, n - 1, heads)
    }
}

/// Largest usage count of sources `< n`.
pub open spec fn usage_max(layer: Seq<Seq<NodeView>>, heads: nat, n: nat) -> nat
    decreases n,
{
    if n == 0 {
        0
    } else {
        let prev = usage_max(layer, heads, (n - 1) as nat);
        let u = usage(layer, n - 1, heads);
        if u > prev {
            u
        } else {
            prev
        }
    }
}

/// Worst usage ratio `max_count / (total / 8)` over the first `n` layers
/// (0 when no layer selects any source).
pub open spec fn max_usage_ratio_spec(conns: ConnectionsView, heads: nat, n: nat) -> UsageRatio
    decreases n,
{
    if n == 0 {
        UsageRatio { numerator: 0, denominator: 1 }
    } else {
        let prev = max_usage_ratio_spec(conns, heads, (n - 1) as nat);
        let total = usage_total(conns[n - 1], heads, 8);
        let r = UsageRatio {
            numerator: (8 * usage_max(conns[n - 1], heads, 8)) as u64,
            denominator: total as u64,
        };
        if total > 0 && ratio_gt(r, prev) {
            r
        } else {
            prev
        }
    }
}

/// The structural report for a candidate topology.
pub open spec fn evaluate_spec(attempt: u32, depth: nat, heads: nat, conns: ConnectionsView) -> DiagnosticsModel {
    let dep = dep_masks(conns, heads, depth);
    DiagnosticsModel {
        attempt,
        full_diffusion: forall|o: int| 0 <= o < 8 ==> #[trigger] dep[o] == 0xffu8,
        dead_inputs: unreached_below(masks_or(dep, 8), 8),
        min_node_fanin: min_fanin(conns, heads, depth) as usize,
        max_usage_ratio: max_usage_ratio_spec(conns, heads, depth),
    }
}

/// A connection table with `depth` layers of `heads` heads of 8 nodes,
/// each selecting 3 sources in `0..8`, with small `depth` and `heads`.
pub open spec fn connections_shape_ok(conns: ConnectionsView, depth: nat, heads: nat) -> bool {
    &&& depth <= 4
    &&& heads <= 4
    &&& conns.len() == depth
    &&& forall|l: int|
        #![trigger conns[l]]
        0 <= l < depth ==> {
            &&& conns[l].len() == heads
            &&& forall|h: int|
                #![trigger conns[l][h]]
                0 <= h < heads ==> {
                    &&& conns[l][h].len() == 8
                    &&& forall|o: int|
                        #![trigger conns[l][h][o]]
                        0 <= o < 8 ==> {
                            &&& conns[l][h][o].0.len() == 3
                            &&& conns[l][h][o].1.len() == 3
                            &&& forall|k: int| 0 <= k < 3 ==> #[trigger] conns[l][h][o].0[k] < 8
                        }
                }
        }
}

} // verus!

verus! {

/// Number of set bits of a byte.
pub fn popcount_u8(m: u8) -> (c: u8)
    ensures
        c == popcount8(m),
{
    assert((m & 1u8) + ((m >> 1u8) & 1u8) + ((m >> 2u8) & 1u8) + ((m >> 3u8) & 1u8) + ((m >> 4u8)
        & 1u8) + ((m >> 5u8) & 1u8) + ((m >> 6u8) & 1u8) + ((m >> 7u8) & 1u8) <= 8) by (bit_vector);
    (m & 1) + ((m >> 1) & 1) + ((m >> 2) & 1) + ((m >> 3) & 1) + ((m >> 4) & 1) + ((m >> 5) & 1) + ((m
        >> 6) & 1) + ((m >> 7) & 1)
}

/// OR, over all heads, of the masks of node `o`'s sources.
pub(crate) fn node_mask(dep: &Vec<u8>, layer: &Vec<Vec<(Vec<usize>, Vec<u8>)>>, heads: usize, o: usize) -> (m: u8)
    requires
        dep@.len() == 8,
        o < 8,
        heads <= layer.deep_view().len(),
        forall|h: int|
            #![trigger layer.deep_view()[h]]
            0 <= h < heads ==> layer.deep_view()[h].len() >= 8 && forall|k: int|
                0 <= k < layer.deep_view()[h][o as int].0.len() ==> #[trigger] layer.deep_view()[h][o as int].0[k] < 8,
    ensures
        m == heads_or(dep@, layer.deep_view(), heads as nat, o as int),
{
    let ghost lv = layer.deep_view();
    let mut acc: u8 = 0;
    let mut h: usize = 0;
    while h < heads
        invariant
            h <= heads,
            heads <= layer@.len(),
            dep@.len() == 8,
            o < 8,
            lv == layer.deep_view(),
            forall|h: int|
                #![trigger lv[h]]
                0 <= h < heads ==> lv[h].len() >= 8 && forall|k: int|
                    0 <= k < lv[h][o as int].0.len() ==> #[trigger] lv[h][o as int].0[k] < 8,
            acc == heads_or(dep@, lv, h as nat, o as int),
        decreases heads - h,
    {
        assert(layer@[h as int].deep_view() == lv[h as int]);
        assert(layer@[h as int]@.len() >= 8);
        let sources = &layer[h][o].0;
        assert(sources@ == lv[h as int][o as int].0);
        let mut src_acc: u8 = 0;
        let mut k: usize = 0;
        while k < sources.len()
            invariant
                k <= sources@.len(),
                dep@.len() == 8,
                forall|j: int| 0 <= j < sources@.len() ==> #[trigger] sources@[j] < 8,
                src_acc == sources_or(dep@, sources@, k as nat),
            decreases sources@.len() - k,
        {
            src_acc = src_acc | dep[sources[k]];
            k += 1;
        }
        acc = acc | src_acc;
        h += 1;
    }
    acc
}

/// Adds every source occurrence of the layer's nodes to `counts`.
fn count_usage(layer: &Vec<Vec<(Vec<usize>, Vec<u8>)>>, heads: usize) -> (counts: Vec<usize>)
    requires
        heads <= 4,
        heads <= layer.deep_view().len(),
        forall|h: int|
            #![trigger layer.deep_view()[h]]
            0 <= h < heads ==> layer.deep_view()[h].len() == 8 && forall|o: int|
                #![trigger layer.deep_view()[h][o]]
                0 <= o < 8 ==> layer.deep_view()[h][o].0.len() == 3 && forall|k: int|
                    0 <= k < 3 ==> #[trigger] layer.deep_view()[h][o].0[k] < 8,
    ensures
        counts@.len() == 8,
        forall|s: int| 0 <= s < 8 ==> #[trigger] counts@[s] == usage(layer.deep_view(), s, heads as nat),
        forall|s: int| 0 <= s < 8 ==> #[trigger] counts@[s] <= 96,
{
    let ghost lv = layer.deep_view();
    let mut counts: Vec<usize> = vec![0usize, 0usize, 0usize, 0usize, 0usize, 0usize, 0usize, 0usize];
    let mut h: usize = 0;
    while h < heads
        invariant
            h <= heads,
            heads <= 4,
            heads <= layer@.len(),
            lv == layer.deep_view(),
            counts@.len() == 8,
            forall|h: int|
                #![trigger lv[h]]
                0 <= h < heads ==> lv[h].len() == 8 && forall|o: int|
                    #![trigger lv[h][o]]
                    0 <= o < 8 ==> lv[h][o].0.len() == 3 && forall|k: int|
                        0 <= k < 3 ==> #[trigger] lv[h][o].0[k] < 8,
            forall|s: int| 0 <= s < 8 ==> #[trigger] counts@[s] == usage(lv, s, h as nat),
            forall|s: int| 0 <= s < 8 ==> #[trigger] counts@[s] <= 24 * h,
        decreases heads - h,
    {
        let head = &layer[h];
        assert(head.deep_view() == lv[h as int]);
        let mut o: usize = 0;
        while o < 8
            invariant
                o <= 8,
                h < heads,
                heads <= 4,
                lv[h as int].len() == 8,
                head.deep_view() == lv[h as int],
                counts@.len() == 8,
                forall|o: int|
                    #![trigger lv[h as int][o]]
                    0 <= o < 8 ==> lv[h as int][o].0.len() == 3 && forall|k: int|
                        0 <= k < 3 ==> #[trigger] lv[h as int][o].0[k] < 8,
                forall|s: int|
                    0 <= s < 8 ==> #[trigger] counts@[s] == usage(lv, s, h as nat) + nodes_usage(
                        lv[h as int],
                        s,
                        o as nat,
                    ),
                forall|s: int| 0 <= s < 8 ==> #[trigger] counts@[s] <= 24 * h + 3 * o,
            decreases 8 - o,
        {
            let sources = &head[o].0;
            assert(sources@ == lv[h as int][o as int].0);
            let mut k: usize = 0;
            while k < sources.len()
                invariant
                    k <= sources@.len(),
                    sources@.len() == 3,
                    h < heads,
                    heads <= 4,
                    o < 8,
                    counts@.len() == 8,
                    sources@ == lv[h as int][o as int].0,
                    forall|j: int| 0 <= j < 3 ==> #[trigger] sources@[j] < 8,
                    forall|s: int|
                        0 <= s < 8 ==> #[trigger] counts@[s] == usage(lv, s, h as nat) + nodes_usage(
                            lv[h as int],
                            s,
                            o as nat,
                        ) + occurrences(sources@, s, k as nat),
                    forall|s: int| 0 <= s < 8 ==> #[trigger] counts@[s] <= 24 * h + 3 * o + k,
                decreases sources@.len() - k,
            {
                let s = sources[k];
                let c = counts[s] + 1;
                counts.set(s, c);
                k += 1;
            }
            o += 1;
        }
        h += 1;
    }
    counts
}

proof fn lemma_layer_min_fanin_is_min(layer: Seq<Seq<NodeView>>, heads: nat, n: nat)
    ensures
        forall|o: int| 0 <= o < n ==> layer_min_fanin(layer, heads, n) <= #[trigger] node_fanin(layer, heads, o),
        n > 0 ==> exists|o: int| 0 <= o < n && #[trigger] node_fanin(layer, heads, o) == layer_min_fanin(layer, heads, n),
        n == 0 ==> layer_min_fanin(layer, heads, n) == usize::MAX,
    decreases n,
{
    if n > 0 {
        lemma_layer_min_fanin_is_min(layer, heads, (n - 1) as nat);
        let f = node_fanin(layer, heads, n - 1);
        if layer_min_fanin(layer, heads, n) != f {
            assert(n >= 2) by {
                if n == 1 {
                    assert(layer_min_fanin(layer, heads, 0) == usize::MAX);
                    assert(f <= 8) by {
                        lemma_popcount8_le(heads_or(unit_masks(), layer, heads, 0));
                    }
                }
            }
            let o0 = choose|o: int|
                0 <= o < n - 1 && #[trigger] node_fanin(layer, heads, o) == layer_min_fanin(layer, heads, (n - 1) as nat);
            assert(0 <= o0 < n);
        }
    }
}

pub(crate) proof fn lemma_popcount8_le(m: u8)
    ensures
        popcount8(m) <= 8,
{
    assert(popcount8(m) <= 8) by (bit_vector);
}

/// The minimum node fan-in of a topology is the smallest number of
/// distinct sources of any node: no node of the first `n` layers has fewer,
/// some node of them has exactly that many, and with no layer it is
/// `usize::MAX`.
pub proof fn lemma_min_fanin_is_smallest(conns: ConnectionsView, heads: nat, n: nat)
    ensures
        forall|l: int, o: int|
            0 <= l < n && 0 <= o < 8 ==> min_fanin(conns, heads, n) <= #[trigger] node_fanin(conns[l], heads, o),
        n > 0 ==> exists|l: int, o: int|
            0 <= l < n && 0 <= o < 8 && #[trigger] node_fanin(conns[l], heads, o) == min_fanin(conns, heads, n),
        n == 0 ==> min_fanin(conns, heads, n) == usize::MAX,
    decreases n,
{
    if n > 0 {
        lemma_min_fanin_is_smallest(conns, heads, (n - 1) as nat);
        lemma_layer_min_fanin_is_min(conns[n - 1], heads, 8);
        let f = layer_min_fanin(conns[n - 1], heads, 8);
        if min_fanin(conns, heads, n) == f {
            let o1 = choose|o: int| 0 <= o < 8 && #[trigger] node_fanin(conns[n - 1], heads, o) == f;
            assert(node_fanin(conns[n - 1], heads, o1) == min_fanin(conns, heads, n));
        } else {
            assert(n >= 2) by {
                if n == 1 {
                    assert(min_fanin(conns, heads, 0) == usize::MAX);
                    let o1 = choose|o: int| 0 <= o < 8 && #[trigger] node_fanin(conns[n - 1], heads, o) == f;
                    lemma_popcount8_le(heads_or(unit_masks(), conns[0], heads, o1));
                }
            }
            let (l0, o0) = choose|l: int, o: int|
                0 <= l < n - 1 && 0 <= o < 8 && #[trigger] node_fanin(conns[l], heads, o) == min_fanin(
                    conns,
                    heads,
                    (n - 1) as nat,
                );
            assert(0 <= l0 < n);
        }
    }
}

proof fn lemma_unreached_len(reach: u8, n: nat)
    ensures
        unreached_below(reach, n).len() <= n,
    decreases n,
{
    if n > 0 {
        lemma_unreached_len(reach, (n - 1) as nat);
    }
}

/// Self-contained diffusion/usage analysis of one candidate connection
/// table.
pub fn evaluate_topology(attempt: u32, depth: usize, heads: usize, connections: &Connections) -> (d: TopologyDiagnostics)
    requires
        connections_shape_ok(connections.deep_view(), depth as nat, heads as nat),
    ensures
        d@ == evaluate_spec(attempt, depth as nat, heads as nat, connections.deep_view()),
        depth >= 1 && heads >= 1 ==> diagnostics_bounded(d@),
{
    let ghost cv = connections.deep_view();
    let mut dep: Vec<u8> = vec![1u8, 2u8, 4u8, 8u8, 16u8, 32u8, 64u8, 128u8];
    proof {
        assert(dep@ =~= unit_masks()) by {
            assert((1u8 << 0u8) == 1u8 && (1u8 << 1u8) == 2u8 && (1u8 << 2u8) == 4u8 && (1u8 << 3u8)
                == 8u8 && (1u8 << 4u8) == 16u8 && (1u8 << 5u8) == 32u8 && (1u8 << 6u8) == 64u8 && (1u8
                << 7u8) == 128u8) by (bit_vector);
        }
    }
    let unit: Vec<u8> = vec![1u8, 2u8, 4u8, 8u8, 16u8, 32u8, 64u8, 128u8];
    assert(unit@ == unit_masks());
    let mut min_node_fanin: usize = usize::MAX;
    let mut max_usage_ratio = UsageRatio { numerator: 0, denominator: 1 };
    let mut layer: usize = 0;
    while layer < depth
        invariant
            layer <= depth,
            cv == connections.deep_view(),
            connections_shape_ok(cv, depth as nat, heads as nat),
            unit@ == unit_masks(),
            dep@ == dep_masks(cv, heads as nat, layer as nat),
            min_node_fanin as nat == min_fanin(cv, heads as nat, layer as nat),
            max_usage_ratio == max_usage_ratio_spec(cv, heads as nat, layer as nat),
            layer >= 1 && heads >= 1 ==> min_node_fanin <= 8,
            0 < max_usage_ratio.denominator <= 1000,
            max_usage_ratio.numerator <= 10000,
        decreases depth - layer,
    {
        let lc = &connections[layer];
        assert(lc.deep_view() == cv[layer as int]);
        let mut new_dep: Vec<u8> = Vec::new();
        let mut layer_min: usize = usize::MAX;
        let mut o: usize = 0;
        while o < 8
            invariant
                o <= 8,
                layer < depth,
                cv == connections.deep_view(),
                connections_shape_ok(cv, depth as nat, heads as nat),
                lc.deep_view() == cv[layer as int],
                unit@ == unit_masks(),
                dep@.len() == 8,
                new_dep@.len() == o,
                forall|j: int| 0 <= j < o ==> #[trigger] new_dep@[j] == heads_or(dep@, cv[layer as int], heads as nat, j),
                layer_min as nat == layer_min_fanin(cv[layer as int], heads as nat, o as nat),
                o >= 1 && heads >= 1 ==> layer_min <= 8,
            decreases 8 - o,
        {
            let m = node_mask(&dep, lc, heads, o);
            new_dep.push(m);
            let u = node_mask(&unit, lc, heads, o);
            let f = popcount_u8(u) as usize;
            proof {
                if heads >= 1 {
                    let hv = lc.deep_view();
                    let prev = heads_or(unit_masks(), hv, (heads - 1) as nat, o as int);
                    let last = sources_or(unit_masks(), hv[heads - 1][o as int].0, 3);
                    reveal_with_fuel(sources_or, 4);
                    let s0 = hv[heads - 1][o as int].0[0];
                    assert(s0 < 8);
                    let b0 = unit_masks()[s0 as int];
                    assert(b0 != 0) by {
                        let su = s0 as u8;
                        assert(su < 8 ==> (1u8 << su) != 0u8) by (bit_vector);
                    }
                    assert(u == prev | last);
                    assert(popcount8(u) >= 1) by {
                        let x = 0u8 | b0;
                        let y = hv[heads - 1][o as int].0[1];
                        let z = hv[heads - 1][o as int].0[2];
                        let bu = unit_masks()[y as int];
                        let bz = unit_masks()[z as int];
                        assert(b0 != 0u8 ==> popcount8(prev | (((0u8 | b0) | bu) | bz)) >= 1) by (bit_vector);
                    }
                }
            }
            if f < layer_min {
                layer_min = f;
            }
            proof {
                assert(f <= 8) by {
                    lemma_popcount8_le(u);
                }
            }
            o += 1;
        }
        proof {
            assert(new_dep@ =~= dep_layer(dep@, cv[layer as int], heads as nat));
        }
        if layer_min < min_node_fanin {
            min_node_fanin = layer_min;
        }
        let counts = count_usage(lc, heads);
        let mut total: usize = 0;
        let mut max_count: usize = 0;
        let mut s: usize = 0;
        while s < 8
            invariant
                s <= 8,
                counts@.len() == 8,
                forall|j: int| 0 <= j < 8 ==> #[trigger] counts@[j] == usage(cv[layer as int], j, heads as nat),
                forall|j: int| 0 <= j < 8 ==> #[trigger] counts@[j] <= 96,
                total as nat == usage_total(cv[layer as int], heads as nat, s as nat),
                max_count as nat == usage_max(cv[layer as int], heads as nat, s as nat),
                total <= 96 * s,
                max_count <= 96,
            decreases 8 - s,
        {
            total = total + counts[s];
            if counts[s] > max_count {
                max_count = counts[s];
            }
            s += 1;
        }
        if total > 0 {
            let candidate = UsageRatio { numerator: 8 * max_count as u64, denominator: total as u64 };
            if !ratio_le_exec(candidate, max_usage_ratio) {
                max_usage_ratio = candidate;
            }
        }
        dep = new_dep;
        layer += 1;
    }
    let mut reach: u8 = 0;
    let mut full_diffusion = true;
    let mut o: usize = 0;
    while o < 8
        invariant
            o <= 8,
            dep@.len() == 8,
            reach == masks_or(dep@, o as nat),
            full_diffusion == forall|j: int| 0 <= j < o ==> #[trigger] dep@[j] == 0xffu8,
        decreases 8 - o,
    {
        reach = reach | dep[o];
        if dep[o] != 0xff {
            full_diffusion = false;
        }
        o += 1;
    }
    let mut dead_inputs: Vec<usize> = Vec::new();
    let mut i: usize = 0;
    while i < 8
        invariant
            i <= 8,
            dead_inputs@ == unreached_below(reach, i as nat),
        decreases 8 - i,
    {
        if (reach >> (i as u8)) & 1 != 1 {
            dead_inputs.push(i);
        }
        i += 1;
    }
    proof {
        lemma_unreached_len(reach, 8);
    }
    TopologyDiagnostics { attempt, full_diffusion, dead_inputs, min_node_fanin, max_usage_ratio }
}

} // verus!
