//! Key-derived generation of transformer shapes, topologies, weights and
//! layer S-boxes, with the constraint-checked candidate search.

use crate::kdf::{append_bytes, be16, be32, derive_int, derive_int_spec, push_be16, push_be32};
use crate::permutation::{generate_permutation, generate_permutation_spec, lemma_generated_permutation};
use crate::gf::{gf256_inverse_table, is_inverse_table};
use crate::sbox::{
    generate_sbox_with, is_byte_bijection, lemma_generated_sbox_bijective, sbox_derivable, sbox_spec,
    try_generate_sbox_with,
};
use crate::topology::{
    connections_shape_ok, diagnostics_bounded, evaluate_spec, evaluate_topology, max_usage_ratio_spec,
    nodes_usage, occurrences, passes_spec, ratio_gt, score_base, score_gt, usage, usage_total,
    DiagnosticsModel, TopologyConstraints, TopologyDiagnostics,
};
use crate::permutation::fisher_yates_state;
use crate::transformer::{
    transformer_wf, Connections, ConnectionsView, GeneratedTransformer, NodeView, TransformerModel,
    HALF_SIZE,
};
use vstd::prelude::*;
use vstd::string::StringSliceAdditionalSpecFns;

verus! {

// ============================================================
// Derivation seeds
// ============================================================

/// `key ∥ identifier ∥ be32(round_number)`.
pub open spec fn transformer_base_seed(key: Seq<u8>, round_number: u32, identifier: Seq<u8>) -> Seq<u8> {
    key + identifier + be32(round_number)
}

/// Number of layers: `derive_int(base_seed, "DEPTH", 3) + 2`.
pub open spec fn shape_depth(base_seed: Seq<u8>) -> nat {
    derive_int_spec(base_seed, "DEPTH".spec_bytes(), 3) as nat + 2
}

/// Number of heads per layer: `derive_int(base_seed, "HEADS", 3) + 2`.
pub open spec fn shape_heads(base_seed: Seq<u8>) -> nat {
    derive_int_spec(base_seed, "HEADS".spec_bytes(), 3) as nat + 2
}

/// `base ∥ "HEAD" ∥ be16(layer) ∥ be16(head)`, then
/// `∥ "TOPO_ATTEMPT" ∥ be32(attempt)` when `attempt > 0`.
pub open spec fn head_seed(base_seed: Seq<u8>, layer: int, head: int, attempt: u32) -> Seq<u8> {
    let s = base_seed + "HEAD".spec_bytes() + be16(layer as u16) + be16(head as u16);
    if attempt > 0 {
        s + "TOPO_ATTEMPT".spec_bytes() + be32(attempt)
    } else {
        s
    }
}

/// `head_seed ∥ "NODE" ∥ be16(output_node)`.
pub open spec fn node_seed(base_seed: Seq<u8>, layer: int, head: int, attempt: u32, node: int) -> Seq<u8> {
    head_seed(base_seed, layer, head, attempt) + "NODE".spec_bytes() + be16(node as u16)
}

/// The nonzero weight of `source` at a node: derived from
/// `node_seed ∥ "WEIGHT" ∥ be16(source)` and label "W", with 0 replaced by 1.
pub open spec fn node_weight(node_seed: Seq<u8>, source: usize) -> u8 {
    let w = derive_int_spec(node_seed + "WEIGHT".spec_bytes() + be16(source as u16), "W".spec_bytes(), 256) as u8;
    if w == 0 {
        1
    } else {
        w
    }
}

/// The connection record of one node: the first three entries of the
/// node's key-derived permutation of `0..8`, and their weights.
pub open spec fn node_connection(base_seed: Seq<u8>, layer: int, head: int, attempt: u32, node: int) -> NodeView {
    let ns = node_seed(base_seed, layer, head, attempt, node);
    let sources = generate_permutation_spec(ns, 8).subrange(0, 3);
    (sources, Seq::new(3, |k: int| node_weight(ns, sources[k])))
}

/// The candidate connection table for `attempt`.
pub open spec fn connections_spec(base_seed: Seq<u8>, depth: nat, heads: nat, attempt: u32) -> ConnectionsView {
    Seq::new(
        depth,
        |l: int|
            Seq::new(
                heads,
                |h: int| Seq::new(8, |o: int| node_connection(base_seed, l, h, attempt, o)),
            ),
    )
}

/// The identifier of a transformer's layer S-boxes: `identifier ∥ "NN_SBOX"`.
pub open spec fn layer_sbox_identifier(identifier: Seq<u8>) -> Seq<u8> {
    identifier + "NN_SBOX".spec_bytes()
}

/// Layer `l`'s S-box: `generate_sbox(key, round_number * 100 + l, identifier ∥ "NN_SBOX")`.
pub open spec fn layer_sboxes_spec(key: Seq<u8>, round_number: u32, identifier: Seq<u8>, depth: nat) -> Seq<Seq<u8>> {
    Seq::new(
        depth,
        |l: int| sbox_spec(key, (round_number * 100 + l) as u32, layer_sbox_identifier(identifier)),
    )
}

/// The layer S-box round numbers fit in 32 bits and every layer S-box
/// can be derived.
pub open spec fn transformer_derivable(key: Seq<u8>, round_number: u32, identifier: Seq<u8>) -> bool {
    let depth = shape_depth(transformer_base_seed(key, round_number, identifier));
    &&& round_number * 100 + depth - 1 <= u32::MAX
    &&& forall|l: int|
        0 <= l < depth ==> #[trigger] sbox_derivable(
            key,
            (round_number * 100 + l) as u32,
            layer_sbox_identifier(identifier),
        )
}

/// The transformer built on the candidate topology `attempt`.
pub open spec fn transformer_model(key: Seq<u8>, round_number: u32, identifier: Seq<u8>, attempt: u32) -> TransformerModel {
    let base = transformer_base_seed(key, round_number, identifier);
    let depth = shape_depth(base);
    let heads = shape_heads(base);
    TransformerModel {
        depth,
        heads,
        connections: connections_spec(base, depth, heads, attempt),
        sboxes: layer_sboxes_spec(key, round_number, identifier, depth),
    }
}

/// A node reads three distinct sources among the 8 bytes, each with a
/// nonzero weight.
pub open spec fn node_structure(node: NodeView) -> bool {
    &&& node.0.len() == 3
    &&& node.1.len() == 3
    &&& forall|k: int| 0 <= k < 3 ==> #[trigger] node.0[k] < 8 && node.1[k] != 0
    &&& node.0[0] != node.0[1] && node.0[0] != node.0[2] && node.0[1] != node.0[2]
}

/// The structure every generated transformer has: 2 to 4 layers of 2 to 4
/// heads of 8 nodes, every node as in `node_structure`, and every layer
/// S-box a bijection of the bytes.
pub open spec fn transformer_structure(t: TransformerModel) -> bool {
    &&& 2 <= t.depth <= 4
    &&& 2 <= t.heads <= 4
    &&& t.connections.len() == t.depth
    &&& t.sboxes.len() == t.depth
    &&& forall|l: int|
        0 <= l < t.depth ==> (#[trigger] t.connections[l]).len() == t.heads && is_byte_bijection(t.sboxes[l])
    &&& forall|l: int, h: int|
        0 <= l < t.depth && 0 <= h < t.heads ==> (#[trigger] t.connections[l][h]).len() == 8
    &&& forall|l: int, h: int, o: int|
        0 <= l < t.depth && 0 <= h < t.heads && 0 <= o < 8 ==> node_structure(#[trigger] t.connections[l][h][o])
}

/// Every candidate transformer of derivable inputs has the structure of
/// `transformer_structure`.
pub proof fn lemma_transformer_structure(key: Seq<u8>, round_number: u32, identifier: Seq<u8>, attempt: u32)
    requires
        transformer_derivable(key, round_number, identifier),
    ensures
        transformer_structure(transformer_model(key, round_number, identifier, attempt)),
{
    let t = transformer_model(key, round_number, identifier, attempt);
    let base = transformer_base_seed(key, round_number, identifier);
    assert forall|l: int| 0 <= l < t.depth implies (#[trigger] t.connections[l]).len() == t.heads
        && is_byte_bijection(t.sboxes[l]) by {
        assert(sbox_derivable(key, (round_number * 100 + l) as u32, layer_sbox_identifier(identifier)));
        lemma_generated_sbox_bijective(key, (round_number * 100 + l) as u32, layer_sbox_identifier(identifier));
    }
    assert forall|l: int, h: int, o: int|
        0 <= l < t.depth && 0 <= h < t.heads && 0 <= o < 8 implies node_structure(
        #[trigger] t.connections[l][h][o],
    ) by {
        let ns = node_seed(base, l, h, attempt, o);
        let p = generate_permutation_spec(ns, 8);
        lemma_generated_permutation(ns, 8);
        let node = node_connection(base, l, h, attempt, o);
        assert(node == t.connections[l][h][o]);
        assert(node.0 =~= p.subrange(0, 3));
        assert(p[0] != p[1] && p[0] != p[2] && p[1] != p[2]);
        assert(p[0] < 8 && p[1] < 8 && p[2] < 8);
    }
}

/// Occurrences of the sources `< n` among the first `k` entries of `src`.
spec fn occurrences_below(src: Seq<usize>, n: nat, k: nat) -> nat
    decreases n,
{
    if n == 0 {
        0
    } else {
        occurrences_below(src, (n - 1) as nat, k) + occurrences(src, n - 1, k)
    }
}

proof fn lemma_occurrences_below_step(src: Seq<usize>, n: nat, k: nat)
    requires
        k >= 1,
    ensures
        occurrences_below(src, n, k) == occurrences_below(src, n, (k - 1) as nat) + if src[k - 1] < n {
            1nat
        } else {
            0nat
        },
    decreases n,
{
    if n > 0 {
        lemma_occurrences_below_step(src, (n - 1) as nat, k);
    }
}

proof fn lemma_occurrences_below_none(src: Seq<usize>, n: nat)
    ensures
        occurrences_below(src, n, 0) == 0,
    decreases n,
{
    if n > 0 {
        lemma_occurrences_below_none(src, (n - 1) as nat);
    }
}

proof fn lemma_occurrences_below_all(src: Seq<usize>, k: nat)
    requires
        forall|j: int| 0 <= j < k ==> #[trigger] src[j] < 8,
    ensures
        occurrences_below(src, 8, k) == k,
    decreases k,
{
    if k == 0 {
        lemma_occurrences_below_none(src, 8);
    } else {
        lemma_occurrences_below_all(src, (k - 1) as nat);
        lemma_occurrences_below_step(src, 8, k);
        assert(src[k - 1] < 8);
    }
}

/// Uses of the sources `< n` by nodes `< o` of one head.
spec fn nodes_usage_below(head: Seq<NodeView>, n: nat, o: nat) -> nat
    decreases n,
{
    if n == 0 {
        0
    } else {
        nodes_usage_below(head, (n - 1) as nat, o) + nodes_usage(head, n - 1, o)
    }
}

proof fn lemma_nodes_usage_below_step(head: Seq<NodeView>, n: nat, o: nat)
    requires
        o >= 1,
    ensures
        nodes_usage_below(head, n, o) == nodes_usage_below(head, n, (o - 1) as nat) + occurrences_below(
            head[o - 1].0,
            n,
            head[o - 1].0.len(),
        ),
    decreases n,
{
    if n > 0 {
        lemma_nodes_usage_below_step(head, (n - 1) as nat, o);
    }
}

proof fn lemma_nodes_usage_below_none(head: Seq<NodeView>, n: nat)
    ensures
        nodes_usage_below(head, n, 0) == 0,
    decreases n,
{
    if n > 0 {
        lemma_nodes_usage_below_none(head, (n - 1) as nat);
    }
}

proof fn lemma_nodes_usage_below_all(head: Seq<NodeView>, o: nat)
    requires
        forall|j: int| 0 <= j < o ==> node_structure(#[trigger] head[j]),
    ensures
        nodes_usage_below(head, 8, o) == 3 * o,
    decreases o,
{
    if o == 0 {
        lemma_nodes_usage_below_none(head, 8);
    } else {
        lemma_nodes_usage_below_all(head, (o - 1) as nat);
        lemma_nodes_usage_below_step(head, 8, o);
        let node = head[o - 1];
        assert(node_structure(node));
        assert forall|j: int| 0 <= j < 3 implies #[trigger] node.0[j] < 8 by {
            assert(node.0[j] < 8);
        }
        lemma_occurrences_below_all(node.0, 3);
    }
}

proof fn lemma_usage_total_step(layer: Seq<Seq<NodeView>>, h: nat, n: nat)
    requires
        h >= 1,
    ensures
        usage_total(layer, h, n) == usage_total(layer, (h - 1) as nat, n) + nodes_usage_below(layer[h - 1], n, 8),
    decreases n,
{
    if n > 0 {
        lemma_usage_total_step(layer, h, (n - 1) as nat);
    }
}

proof fn lemma_usage_total_none(layer: Seq<Seq<NodeView>>, n: nat)
    ensures
        usage_total(layer, 0, n) == 0,
    decreases n,
{
    if n > 0 {
        lemma_usage_total_none(layer, (n - 1) as nat);
    }
}

proof fn lemma_usage_total_all(layer: Seq<Seq<NodeView>>, h: nat)
    requires
        forall|hh: int, o: int| 0 <= hh < h && 0 <= o < 8 ==> node_structure(#[trigger] layer[hh][o]),
    ensures
        usage_total(layer, h, 8) == 24 * h,
    decreases h,
{
    if h == 0 {
        lemma_usage_total_none(layer, 8);
    } else {
        lemma_usage_total_all(layer, (h - 1) as nat);
        lemma_usage_total_step(layer, h, 8);
        let head = layer[h - 1];
        assert forall|j: int| 0 <= j < 8 implies node_structure(#[trigger] head[j]) by {
            assert(node_structure(layer[h - 1][j]));
        }
        lemma_nodes_usage_below_all(head, 8);
    }
}

/// Every node of a generated transformer reads three sources, so each
/// layer makes `24 * heads` source uses in all: the usage ratio of a layer,
/// `8 * max_uses / total`, is `max_uses / (3 * heads)`.
pub proof fn lemma_layer_usage_total(t: TransformerModel, l: int)
    requires
        transformer_structure(t),
        0 <= l < t.depth,
    ensures
        usage_total(t.connections[l], t.heads, 8) == 24 * t.heads,
{
    let layer = t.connections[l];
    assert forall|hh: int, o: int| 0 <= hh < t.heads && 0 <= o < 8 implies node_structure(#[trigger] layer[hh][o]) by {
        assert(node_structure(t.connections[l][hh][o]));
    }
    lemma_usage_total_all(layer, t.heads);
}

// ============================================================
// Candidate search
// ============================================================

/// The diagnostics of candidate `attempt`.
pub open spec fn candidate_diagnostics(base_seed: Seq<u8>, depth: nat, heads: nat, attempt: u32) -> DiagnosticsModel {
    evaluate_spec(attempt, depth, heads, connections_spec(base_seed, depth, heads, attempt))
}

/// The candidate selected when the search continues at `a` with the best
/// candidate so far `best`: the first candidate that passes the
/// constraints, or, when none passes, the best-scoring one (ties keep the
/// earlier attempt).
pub open spec fn search_from(
    base_seed: Seq<u8>,
    depth: nat,
    heads: nat,
    constraints: TopologyConstraints,
    a: nat,
    best: Option<u32>,
) -> u32
    decreases constraints.max_attempts - a,
{
    if a >= constraints.max_attempts {
        match best {
            Some(b) => b,
            None => 0,
        }
    } else {
        let d = candidate_diagnostics(base_seed, depth, heads, a as u32);
        if passes_spec(d, constraints) {
            a as u32
        } else {
            let nb: u32 = match best {
                None => a as u32,
                Some(b) => if score_gt(d, candidate_diagnostics(base_seed, depth, heads, b)) {
                    a as u32
                } else {
                    b
                },
            };
            search_from(base_seed, depth, heads, constraints, a + 1, Some(nb))
        }
    }
}

/// Candidate `attempt` of the transformer's topology search satisfies
/// `constraints`.
pub open spec fn candidate_passes(
    key: Seq<u8>,
    round_number: u32,
    identifier: Seq<u8>,
    constraints: TopologyConstraints,
    attempt: u32,
) -> bool {
    let base = transformer_base_seed(key, round_number, identifier);
    passes_spec(candidate_diagnostics(base, shape_depth(base), shape_heads(base), attempt), constraints)
}

/// The attempt whose topology `new_constrained` accepts.
pub open spec fn accepted_attempt(key: Seq<u8>, round_number: u32, identifier: Seq<u8>, constraints: TopologyConstraints) -> u32 {
    let base = transformer_base_seed(key, round_number, identifier);
    search_from(base, shape_depth(base), shape_heads(base), constraints, 0, None)
}

} // verus!

verus! {

/// Builds `key ∥ identifier ∥ be32(round_number)`.
fn base_seed_of(key: &[u8], round_number: u32, identifier: &[u8]) -> (s: Vec<u8>)
    ensures
        s@ == transformer_base_seed(key@, round_number, identifier@),
{
    let mut base_seed: Vec<u8> = Vec::new();
    append_bytes(&mut base_seed, key);
    append_bytes(&mut base_seed, identifier);
    push_be32(&mut base_seed, round_number);
    base_seed
}

/// depth/heads are shape parameters and are not re-rolled by topology
/// retries: only which sources/weights feed each node changes between
/// attempts.
pub fn derive_shape(base_seed: &[u8]) -> (shape: (usize, usize))
    ensures
        shape.0 as nat == shape_depth(base_seed@),
        shape.1 as nat == shape_heads(base_seed@),
        2 <= shape.0 <= 4,
        2 <= shape.1 <= 4,
{
    let depth = derive_int(base_seed, "DEPTH".as_bytes(), 3) as usize + 2;
    let heads = derive_int(base_seed, "HEADS".as_bytes(), 3) as usize + 2;
    (depth, heads)
}

/// One node's connection record: three sources and their weights.
fn generate_node(base_seed: &[u8], layer: usize, head: usize, attempt: u32, output_node: usize) -> (node: (Vec<usize>, Vec<u8>))
    requires
        layer <= u16::MAX,
        head <= u16::MAX,
        output_node < 8,
    ensures
        node.deep_view() == node_connection(base_seed@, layer as int, head as int, attempt, output_node as int),
        node.0@.len() == 3,
        node.1@.len() == 3,
        forall|k: int| 0 <= k < 3 ==> #[trigger] node.0@[k] < 8,
{
    let mut nseed: Vec<u8> = Vec::new();
    append_bytes(&mut nseed, base_seed);
    append_bytes(&mut nseed, "HEAD".as_bytes());
    push_be16(&mut nseed, layer as u16);
    push_be16(&mut nseed, head as u16);
    if attempt > 0 {
        append_bytes(&mut nseed, "TOPO_ATTEMPT".as_bytes());
        push_be32(&mut nseed, attempt);
    }
    append_bytes(&mut nseed, "NODE".as_bytes());
    push_be16(&mut nseed, output_node as u16);
    let ghost ns = nseed@;
    assert(ns == node_seed(base_seed@, layer as int, head as int, attempt, output_node as int));
    let permutation = generate_permutation(nseed.as_slice(), HALF_SIZE);
    let sources: Vec<usize> = vec![permutation[0], permutation[1], permutation[2]];
    let ghost srcs = generate_permutation_spec(ns, 8).subrange(0, 3);
    assert(sources@ =~= srcs);
    let mut weights: Vec<u8> = Vec::new();
    let mut k: usize = 0;
    while k < 3
        invariant
            k <= 3,
            sources@ == srcs,
            sources@.len() == 3,
            nseed@ == ns,
            forall|j: int| 0 <= j < 3 ==> #[trigger] sources@[j] < 8,
            weights@ == Seq::new(k as nat, |j: int| node_weight(ns, srcs[j])),
        decreases 3 - k,
    {
        let source = sources[k];
        let mut weight_seed: Vec<u8> = Vec::new();
        append_bytes(&mut weight_seed, nseed.as_slice());
        append_bytes(&mut weight_seed, "WEIGHT".as_bytes());
        push_be16(&mut weight_seed, source as u16);
        let mut weight = derive_int(weight_seed.as_slice(), "W".as_bytes(), 256) as u8;
        if weight == 0 {
            weight = 1;
        }
        weights.push(weight);
        k += 1;
        proof {
            assert(weights@ =~= Seq::new(k as nat, |j: int| node_weight(ns, srcs[j])));
        }
    }
    let node = (sources, weights);
    proof {
        let expected = node_connection(base_seed@, layer as int, head as int, attempt, output_node as int);
        assert(node.0.deep_view() =~= expected.0);
        assert(node.1.deep_view() =~= expected.1);
    }
    node
}

/// Generates one candidate connection table for the given shape. `attempt`
/// is mixed into every per-node seed, so each attempt is an independent,
/// deterministic rewiring.
pub fn generate_connections(base_seed: &[u8], depth: usize, heads: usize, attempt: u32) -> (connections: Connections)
    requires
        depth <= 4,
        heads <= 4,
    ensures
        connections.deep_view() == connections_spec(base_seed@, depth as nat, heads as nat, attempt),
        connections_shape_ok(connections.deep_view(), depth as nat, heads as nat),
{
    let ghost full = connections_spec(base_seed@, depth as nat, heads as nat, attempt);
    let mut connections: Connections = Vec::new();
    let mut layer: usize = 0;
    while layer < depth
        invariant
            layer <= depth,
            depth <= 4,
            heads <= 4,
            full == connections_spec(base_seed@, depth as nat, heads as nat, attempt),
            connections.deep_view() == full.subrange(0, layer as int),
            connections_shape_ok(connections.deep_view(), layer as nat, heads as nat),
        decreases depth - layer,
    {
        let mut layer_connections: Vec<Vec<(Vec<usize>, Vec<u8>)>> = Vec::new();
        let mut head: usize = 0;
        while head < heads
            invariant
                head <= heads,
                layer < depth,
                depth <= 4,
                heads <= 4,
                full == connections_spec(base_seed@, depth as nat, heads as nat, attempt),
                layer_connections.deep_view() == full[layer as int].subrange(0, head as int),
                forall|h: int|
                    #![trigger layer_connections.deep_view()[h]]
                    0 <= h < head ==> {
                        &&& layer_connections.deep_view()[h].len() == 8
                        &&& forall|o: int|
                            #![trigger layer_connections.deep_view()[h][o]]
                            0 <= o < 8 ==> {
                                &&& layer_connections.deep_view()[h][o].0.len() == 3
                                &&& layer_connections.deep_view()[h][o].1.len() == 3
                                &&& forall|k: int| 0 <= k < 3 ==> #[trigger] layer_connections.deep_view()[h][o].0[k] < 8
                            }
                    },
            decreases heads - head,
        {
            let mut head_connections: Vec<(Vec<usize>, Vec<u8>)> = Vec::new();
            let mut output_node: usize = 0;
            while output_node < HALF_SIZE
                invariant
                    output_node <= 8,
                    head < heads,
                    layer < depth,
                    depth <= 4,
                    heads <= 4,
                    full == connections_spec(base_seed@, depth as nat, heads as nat, attempt),
                    head_connections.deep_view() == full[layer as int][head as int].subrange(0, output_node as int),
                    forall|o: int|
                        #![trigger head_connections.deep_view()[o]]
                        0 <= o < output_node ==> {
                            &&& head_connections.deep_view()[o].0.len() == 3
                            &&& head_connections.deep_view()[o].1.len() == 3
                            &&& forall|k: int| 0 <= k < 3 ==> #[trigger] head_connections.deep_view()[o].0[k] < 8
                        },
                decreases 8 - output_node,
            {
                let node = generate_node(base_seed, layer, head, attempt, output_node);
                let ghost old = head_connections;
                let ghost nd = node;
                head_connections.push(node);
                proof {
                    lemma_push_deep_view(old, head_connections, nd);
                }
                output_node += 1;
                proof {
                    assert(head_connections.deep_view() =~= full[layer as int][head as int].subrange(0, output_node as int));
                }
            }
            let ghost old = layer_connections;
            let ghost hc = head_connections;
            layer_connections.push(head_connections);
            proof {
                lemma_push_deep_view(old, layer_connections, hc);
                assert(full[layer as int][head as int].subrange(0, 8) =~= full[layer as int][head as int]);
            }
            head += 1;
            proof {
                assert(layer_connections.deep_view() =~= full[layer as int].subrange(0, head as int));
            }
        }
        let ghost old = connections;
        let ghost lc = layer_connections;
        connections.push(layer_connections);
        proof {
            lemma_push_deep_view(old, connections, lc);
            assert(full[layer as int].subrange(0, heads as int) =~= full[layer as int]);
        }
        layer += 1;
        proof {
            assert(connections.deep_view() =~= full.subrange(0, layer as int));
        }
    }
    proof {
        assert(full.subrange(0, depth as int) =~= full);
    }
    connections
}

proof fn lemma_push_deep_view<T: DeepView>(old: Vec<T>, new: Vec<T>, x: T)
    requires
        new@ == old@.push(x),
    ensures
        new.deep_view() == old.deep_view().push(x.deep_view()),
{
    assert(new.deep_view() =~= old.deep_view().push(x.deep_view()));
}

/// The S-boxes of the transformer's layers.
fn generate_layer_sboxes(key: &[u8], round_number: u32, identifier: &[u8], depth: usize, inv_table: &Vec<u8>) -> (sboxes: Vec<Vec<u8>>)
    requires
        is_inverse_table(inv_table@),
        round_number * 100 + depth - 1 <= u32::MAX,
        forall|l: int|
            0 <= l < depth ==> #[trigger] sbox_derivable(
                key@,
                (round_number * 100 + l) as u32,
                layer_sbox_identifier(identifier@),
            ),
    ensures
        sboxes.deep_view() == layer_sboxes_spec(key@, round_number, identifier@, depth as nat),
{
    let mut id: Vec<u8> = Vec::new();
    append_bytes(&mut id, identifier);
    append_bytes(&mut id, "NN_SBOX".as_bytes());
    let mut sboxes: Vec<Vec<u8>> = Vec::new();
    let mut layer: usize = 0;
    while layer < depth
        invariant
            layer <= depth,
            round_number * 100 + depth - 1 <= u32::MAX,
            is_inverse_table(inv_table@),
            id@ == layer_sbox_identifier(identifier@),
            forall|l: int|
                0 <= l < depth ==> #[trigger] sbox_derivable(
                    key@,
                    (round_number * 100 + l) as u32,
                    layer_sbox_identifier(identifier@),
                ),
            sboxes.deep_view() == layer_sboxes_spec(key@, round_number, identifier@, depth as nat).subrange(0, layer as int),
        decreases depth - layer,
    {
        let r = round_number * 100 + layer as u32;
        assert(sbox_derivable(key@, (round_number * 100 + layer) as u32, layer_sbox_identifier(identifier@)));
        let sbox = generate_sbox_with(key, r, id.as_slice(), inv_table);
        let ghost old = sboxes;
        let ghost sb = sbox;
        sboxes.push(sbox);
        proof {
            lemma_push_deep_view(old, sboxes, sb);
            assert(sb.deep_view() =~= sb@);
        }
        layer += 1;
        proof {
            assert(sboxes.deep_view() =~= layer_sboxes_spec(key@, round_number, identifier@, depth as nat).subrange(0, layer as int));
        }
    }
    proof {
        assert(layer_sboxes_spec(key@, round_number, identifier@, depth as nat).subrange(0, depth as int) =~= layer_sboxes_spec(key@, round_number, identifier@, depth as nat));
    }
    sboxes
}

} // verus!

verus! {

/// Whether the transformer for `(key, round_number, identifier)` can be
/// derived: its layer round numbers fit in 32 bits and every layer S-box
/// has an invertible affine matrix among the attempt counters.
fn transformer_is_derivable(key: &[u8], round_number: u32, identifier: &[u8], inv_table: &Vec<u8>) -> (b: bool)
    requires
        is_inverse_table(inv_table@),
    ensures
        b == transformer_derivable(key@, round_number, identifier@),
{
    let base_seed = base_seed_of(key, round_number, identifier);
    let (depth, _heads) = derive_shape(base_seed.as_slice());
    if round_number as u64 * 100 + depth as u64 - 1 > 0xffff_ffffu64 {
        return false;
    }
    let mut id: Vec<u8> = Vec::new();
    append_bytes(&mut id, identifier);
    append_bytes(&mut id, "NN_SBOX".as_bytes());
    let mut layer: usize = 0;
    while layer < depth
        invariant
            layer <= depth,
            depth as nat == shape_depth(transformer_base_seed(key@, round_number, identifier@)),
            round_number * 100 + depth - 1 <= u32::MAX,
            is_inverse_table(inv_table@),
            id@ == layer_sbox_identifier(identifier@),
            forall|l: int|
                0 <= l < layer ==> #[trigger] sbox_derivable(
                    key@,
                    (round_number * 100 + l) as u32,
                    layer_sbox_identifier(identifier@),
                ),
        decreases depth - layer,
    {
        let r = round_number * 100 + layer as u32;
        match try_generate_sbox_with(key, r, id.as_slice(), inv_table) {
            Some(_) => {},
            None => {
                return false;
            },
        }
        layer += 1;
    }
    true
}

proof fn lemma_search_step(
    base_seed: Seq<u8>,
    depth: nat,
    heads: nat,
    constraints: TopologyConstraints,
    a: nat,
    best: Option<u32>,
)
    requires
        a < constraints.max_attempts,
    ensures
        ({
            let d = candidate_diagnostics(base_seed, depth, heads, a as u32);
            let nb: u32 = match best {
                None => a as u32,
                Some(b) => if score_gt(d, candidate_diagnostics(base_seed, depth, heads, b)) {
                    a as u32
                } else {
                    b
                },
            };
            search_from(base_seed, depth, heads, constraints, a, best) == if passes_spec(d, constraints) {
                a as u32
            } else {
                search_from(base_seed, depth, heads, constraints, a + 1, Some(nb))
            }
        }),
{
}

/// A transformer with the generated shape can be evaluated on 8 bytes.
proof fn lemma_generated_wf(t: TransformerModel)
    requires
        connections_shape_ok(t.connections, t.depth, t.heads),
        t.sboxes.len() == t.depth,
        forall|l: int| 0 <= l < t.depth ==> (#[trigger] t.sboxes[l]).len() == 256,
    ensures
        transformer_wf(t, 8),
{
    assert forall|l: int| #![trigger t.connections[l]] 0 <= l < t.depth implies {
        &&& t.heads <= t.connections[l].len()
        &&& t.sboxes[l].len() >= 256
        &&& forall|h: int|
            #![trigger t.connections[l][h]]
            0 <= h < t.heads ==> {
                &&& t.connections[l][h].len() >= 8
                &&& forall|o: int, k: int|
                    0 <= o < 8 && 0 <= k < crate::transformer::node_len(t.connections[l][h][o])
                        ==> #[trigger] t.connections[l][h][o].0[k] < 8
            }
    } by {
        assert(t.sboxes[l].len() == 256);
        assert forall|h: int| #![trigger t.connections[l][h]] 0 <= h < t.heads implies {
            &&& t.connections[l][h].len() >= 8
            &&& forall|o: int, k: int|
                0 <= o < 8 && 0 <= k < crate::transformer::node_len(t.connections[l][h][o])
                    ==> #[trigger] t.connections[l][h][o].0[k] < 8
        } by {
            assert forall|o: int, k: int|
                0 <= o < 8 && 0 <= k < crate::transformer::node_len(t.connections[l][h][o])
                    implies #[trigger] t.connections[l][h][o].0[k] < 8 by {
                assert(t.connections[l][h][o].0.len() == 3);
            }
        }
    }
}

impl GeneratedTransformer {
    /// Unconstrained generation: accepts the first key-derived candidate
    /// topology (attempt 0).
    pub fn new(key: &[u8], round_number: u32, identifier: &[u8]) -> (t: Self)
        requires
            transformer_derivable(key@, round_number, identifier@),
        ensures
            t@ == transformer_model(key@, round_number, identifier@, 0),
            transformer_wf(t@, 8),
            transformer_structure(t@),
    {
        let inv_table = gf256_inverse_table();
        proof {
            lemma_transformer_structure(key@, round_number, identifier@, 0);
        }
        Self::build(key, round_number, identifier, &inv_table)
    }

    /// `new` with a precomputed inverse table.
    fn build(key: &[u8], round_number: u32, identifier: &[u8], inv_table: &Vec<u8>) -> (t: Self)
        requires
            transformer_derivable(key@, round_number, identifier@),
            is_inverse_table(inv_table@),
        ensures
            t@ == transformer_model(key@, round_number, identifier@, 0),
            transformer_wf(t@, 8),
    {
        let base_seed = base_seed_of(key, round_number, identifier);
        let (depth, heads) = derive_shape(base_seed.as_slice());
        let connections = generate_connections(base_seed.as_slice(), depth, heads, 0);
        let sboxes = generate_layer_sboxes(key, round_number, identifier, depth, inv_table);
        let t = GeneratedTransformer { depth, heads, connections, sboxes };
        proof {
            lemma_generated_wf(t@);
        }
        t
    }

    /// Key-derived, constraint-checked generation: candidate topologies
    /// (attempt 0, 1, 2, ...) are generated until one satisfies
    /// `constraints`, which is accepted; when none of the `max_attempts`
    /// candidates does, the best-scoring one is accepted.
    /// Returns the transformer and the diagnostics of its topology.
    pub fn new_constrained(
        key: &[u8],
        round_number: u32,
        identifier: &[u8],
        constraints: &TopologyConstraints,
    ) -> (r: (Self, TopologyDiagnostics))
        requires
            transformer_derivable(key@, round_number, identifier@),
            constraints.max_attempts >= 1,
        ensures
            r.0@ == transformer_model(
                key@,
                round_number,
                identifier@,
                accepted_attempt(key@, round_number, identifier@, *constraints),
            ),
            r.1@ == candidate_diagnostics(
                transformer_base_seed(key@, round_number, identifier@),
                shape_depth(transformer_base_seed(key@, round_number, identifier@)),
                shape_heads(transformer_base_seed(key@, round_number, identifier@)),
                accepted_attempt(key@, round_number, identifier@, *constraints),
            ),
            transformer_wf(r.0@, 8),
            transformer_structure(r.0@),
            (exists|p: u32|
                p < constraints.max_attempts && #[trigger] candidate_passes(key@, round_number, identifier@, *constraints, p))
                ==> {
                &&& r.1@.attempt == accepted_attempt(key@, round_number, identifier@, *constraints)
                &&& candidate_passes(key@, round_number, identifier@, *constraints, r.1@.attempt)
                &&& forall|x: u32|
                    x < r.1@.attempt ==> !#[trigger] candidate_passes(key@, round_number, identifier@, *constraints, x)
            },
    {
        let inv_table = gf256_inverse_table();
        proof {
            lemma_search_selects_first_passing(key@, round_number, identifier@, *constraints);
            lemma_transformer_structure(
                key@,
                round_number,
                identifier@,
                accepted_attempt(key@, round_number, identifier@, *constraints),
            );
        }
        Self::build_constrained(key, round_number, identifier, constraints, &inv_table)
    }

    /// `new_constrained` with a precomputed inverse table.
    fn build_constrained(
        key: &[u8],
        round_number: u32,
        identifier: &[u8],
        constraints: &TopologyConstraints,
        inv_table: &Vec<u8>,
    ) -> (r: (Self, TopologyDiagnostics))
        requires
            transformer_derivable(key@, round_number, identifier@),
            constraints.max_attempts >= 1,
            is_inverse_table(inv_table@),
        ensures
            r.0@ == transformer_model(
                key@,
                round_number,
                identifier@,
                accepted_attempt(key@, round_number, identifier@, *constraints),
            ),
            r.1@ == candidate_diagnostics(
                transformer_base_seed(key@, round_number, identifier@),
                shape_depth(transformer_base_seed(key@, round_number, identifier@)),
                shape_heads(transformer_base_seed(key@, round_number, identifier@)),
                accepted_attempt(key@, round_number, identifier@, *constraints),
            ),
            transformer_wf(r.0@, 8),
    {
        let base_seed = base_seed_of(key, round_number, identifier);
        let ghost bs = base_seed@;
        let (depth, heads) = derive_shape(base_seed.as_slice());
        let ghost goal = accepted_attempt(key@, round_number, identifier@, *constraints);
        let mut best: Option<(Connections, TopologyDiagnostics)> = None;
        let ghost mut best_attempt: Option<u32> = None;
        let mut attempt: u32 = 0;
        let mut done = false;
        while !done && attempt < constraints.max_attempts
            invariant
                bs == base_seed@,
                bs == transformer_base_seed(key@, round_number, identifier@),
                depth as nat == shape_depth(bs),
                heads as nat == shape_heads(bs),
                2 <= depth <= 4,
                2 <= heads <= 4,
                constraints.max_attempts >= 1,
                goal == search_from(bs, depth as nat, heads as nat, *constraints, 0, None),
                attempt <= constraints.max_attempts,
                done ==> best_attempt is Some && goal == best_attempt->0,
                !done ==> goal == search_from(bs, depth as nat, heads as nat, *constraints, attempt as nat, best_attempt),
                !done && attempt == 0 ==> best_attempt is None,
                attempt > 0 || done ==> best_attempt is Some,
                best is Some <==> best_attempt is Some,
                best is Some ==> {
                    let (c, d) = best->0;
                    &&& c.deep_view() == connections_spec(bs, depth as nat, heads as nat, best_attempt->0)
                    &&& connections_shape_ok(c.deep_view(), depth as nat, heads as nat)
                    &&& d@ == candidate_diagnostics(bs, depth as nat, heads as nat, best_attempt->0)
                    &&& diagnostics_bounded(d@)
                },
            decreases constraints.max_attempts - attempt + (if done { 0int } else { 1int }),
        {
            let connections = generate_connections(base_seed.as_slice(), depth, heads, attempt);
            let diag = evaluate_topology(attempt, depth, heads, &connections);
            let passed = diag.passes(constraints);
            proof {
                lemma_search_step(bs, depth as nat, heads as nat, *constraints, attempt as nat, best_attempt);
            }
            if passed {
                best = Some((connections, diag));
                proof {
                    best_attempt = Some(attempt);
                }
                done = true;
            } else {
                let is_better = match &best {
                    None => true,
                    Some((_, current_best)) => diag.scores_above(current_best),
                };
                if is_better {
                    best = Some((connections, diag));
                    proof {
                        best_attempt = Some(attempt);
                    }
                }
                attempt += 1;
            }
        }
        proof {
            if !done {
                assert(attempt == constraints.max_attempts);
            }
        }
        let (connections, diagnostics) = best.unwrap();
        let sboxes = generate_layer_sboxes(key, round_number, identifier, depth, inv_table);
        let t = GeneratedTransformer { depth, heads, connections, sboxes };
        proof {
            lemma_generated_wf(t@);
        }
        (t, diagnostics)
    }
}

} // verus!

verus! {

impl GeneratedTransformer {
    /// `new` for any inputs: `None` exactly when some layer S-box of the
    /// transformer cannot be derived.
    pub fn try_new(key: &[u8], round_number: u32, identifier: &[u8]) -> (t: Option<Self>)
        ensures
            match t {
                Some(t) => {
                    &&& transformer_derivable(key@, round_number, identifier@)
                    &&& t@ == transformer_model(key@, round_number, identifier@, 0)
                    &&& transformer_wf(t@, 8)
                },
                None => !transformer_derivable(key@, round_number, identifier@),
            },
    {
        let inv_table = gf256_inverse_table();
        if transformer_is_derivable(key, round_number, identifier, &inv_table) {
            Some(GeneratedTransformer::new(key, round_number, identifier))
        } else {
            None
        }
    }

    /// `new_constrained` for any key: `None` exactly when some layer S-box
    /// of the transformer cannot be derived.
    pub fn try_new_constrained(
        key: &[u8],
        round_number: u32,
        identifier: &[u8],
        constraints: &TopologyConstraints,
    ) -> (r: Option<(Self, TopologyDiagnostics)>)
        requires
            constraints.max_attempts >= 1,
        ensures
            match r {
                Some(r) => {
                    let base = transformer_base_seed(key@, round_number, identifier@);
                    let a = accepted_attempt(key@, round_number, identifier@, *constraints);
                    &&& transformer_derivable(key@, round_number, identifier@)
                    &&& r.0@ == transformer_model(key@, round_number, identifier@, a)
                    &&& r.1@ == candidate_diagnostics(base, shape_depth(base), shape_heads(base), a)
                    &&& transformer_wf(r.0@, 8)
                },
                None => !transformer_derivable(key@, round_number, identifier@),
            },
    {
        let inv_table = gf256_inverse_table();
        if transformer_is_derivable(key, round_number, identifier, &inv_table) {
            Some(GeneratedTransformer::new_constrained(key, round_number, identifier, constraints))
        } else {
            None
        }
    }

    /// `try_new_constrained` with a precomputed inverse table.
    pub(crate) fn try_build_constrained(
        key: &[u8],
        round_number: u32,
        identifier: &[u8],
        constraints: &TopologyConstraints,
        inv_table: &Vec<u8>,
    ) -> (r: Option<(Self, TopologyDiagnostics)>)
        requires
            constraints.max_attempts >= 1,
            is_inverse_table(inv_table@),
        ensures
            match r {
                Some(r) => {
                    let base = transformer_base_seed(key@, round_number, identifier@);
                    let a = accepted_attempt(key@, round_number, identifier@, *constraints);
                    &&& transformer_derivable(key@, round_number, identifier@)
                    &&& r.0@ == transformer_model(key@, round_number, identifier@, a)
                    &&& r.1@ == candidate_diagnostics(base, shape_depth(base), shape_heads(base), a)
                    &&& transformer_wf(r.0@, 8)
                },
                None => !transformer_derivable(key@, round_number, identifier@),
            },
    {
        if transformer_is_derivable(key, round_number, identifier, inv_table) {
            Some(GeneratedTransformer::build_constrained(key, round_number, identifier, constraints, inv_table))
        } else {
            None
        }
    }
}

} // verus!

verus! {

// ============================================================
// What the candidate search accepts
// ============================================================

proof fn lemma_fisher_yates_len(d: Seq<u8>, n: nat, t: nat)
    requires
        t < n <= 8,
    ensures
        fisher_yates_state(d, n, t).len() == n,
    decreases t,
{
    if t > 0 {
        lemma_fisher_yates_len(d, n, (t - 1) as nat);
        let prev = fisher_yates_state(d, n, (t - 1) as nat);
        let i = n - t;
        let m = ((i + 1) as u64);
        assert(m == i + 1);
        let j = (crate::kdf::be_u64_at(d, 8 * (t - 1)) % m) as int;
        assert(0 <= j <= i);
        assert(prev.update(i, prev[j]).len() == n);
    }
}

/// Every candidate node selects three sources.
proof fn lemma_node_sources_len(base_seed: Seq<u8>, l: int, h: int, a: u32, o: int)
    ensures
        node_connection(base_seed, l, h, a, o).0.len() == 3,
{
    let ns = node_seed(base_seed, l, h, a, o);
    lemma_fisher_yates_len(crate::permutation::permutation_stream(ns, 8), 8, 7);
}

proof fn lemma_occurrences_le(src: Seq<usize>, s: int, k: nat)
    ensures
        occurrences(src, s, k) <= k,
    decreases k,
{
    if k > 0 {
        lemma_occurrences_le(src, s, (k - 1) as nat);
    }
}

proof fn lemma_nodes_usage_le(head: Seq<NodeView>, s: int, o: nat)
    requires
        forall|j: int| 0 <= j < o ==> (#[trigger] head[j]).0.len() == 3,
    ensures
        nodes_usage(head, s, o) <= 3 * o,
    decreases o,
{
    if o > 0 {
        lemma_nodes_usage_le(head, s, (o - 1) as nat);
        lemma_occurrences_le(head[o - 1].0, s, head[o - 1].0.len());
    }
}

proof fn lemma_usage_le(layer: Seq<Seq<NodeView>>, s: int, h: nat)
    requires
        forall|hh: int, j: int| 0 <= hh < h && 0 <= j < 8 ==> (#[trigger] layer[hh][j]).0.len() == 3,
    ensures
        usage(layer, s, h) <= 24 * h,
    decreases h,
{
    if h > 0 {
        lemma_usage_le(layer, s, (h - 1) as nat);
        assert forall|j: int| 0 <= j < 8 implies (#[trigger] layer[h - 1][j]).0.len() == 3 by {
            assert(layer[h - 1][j].0.len() == 3);
        }
        lemma_nodes_usage_le(layer[h - 1], s, 8);
    }
}

proof fn lemma_usage_total_le(layer: Seq<Seq<NodeView>>, heads: nat, n: nat)
    requires
        heads <= 4,
        forall|hh: int, j: int| 0 <= hh < heads && 0 <= j < 8 ==> (#[trigger] layer[hh][j]).0.len() == 3,
    ensures
        usage_total(layer, heads, n) <= 96 * n,
    decreases n,
{
    if n > 0 {
        lemma_usage_total_le(layer, heads, (n - 1) as nat);
        lemma_usage_le(layer, n - 1, heads);
    }
}

/// The worst usage ratio of a candidate has a positive denominator.
proof fn lemma_ratio_denominator(base_seed: Seq<u8>, depth: nat, heads: nat, a: u32, n: nat)
    requires
        heads <= 4,
        n <= depth,
    ensures
        max_usage_ratio_spec(connections_spec(base_seed, depth, heads, a), heads, n).denominator > 0,
    decreases n,
{
    if n > 0 {
        lemma_ratio_denominator(base_seed, depth, heads, a, (n - 1) as nat);
        let conns = connections_spec(base_seed, depth, heads, a);
        let layer = conns[n - 1];
        assert forall|hh: int, j: int| 0 <= hh < heads && 0 <= j < 8 implies (#[trigger] layer[hh][j]).0.len() == 3 by {
            lemma_node_sources_len(base_seed, n - 1, hh, a, j);
        }
        lemma_usage_total_le(layer, heads, 8);
    }
}

/// `score_gt` is transitive on reports with positive ratio denominators.
proof fn lemma_score_gt_transitive(x: DiagnosticsModel, y: DiagnosticsModel, z: DiagnosticsModel)
    requires
        x.max_usage_ratio.denominator > 0,
        y.max_usage_ratio.denominator > 0,
        z.max_usage_ratio.denominator > 0,
        score_gt(x, y),
        score_gt(y, z),
    ensures
        score_gt(x, z),
{
    let dx = x.max_usage_ratio.denominator as int;
    let dy = y.max_usage_ratio.denominator as int;
    let dz = z.max_usage_ratio.denominator as int;
    let vx = score_base(x) * dx - x.max_usage_ratio.numerator;
    let vy = score_base(y) * dy - y.max_usage_ratio.numerator;
    let vz = score_base(z) * dz - z.max_usage_ratio.numerator;
    assert(vx * dz > vz * dx) by (nonlinear_arith)
        requires
            dx > 0,
            dy > 0,
            dz > 0,
            vx * dy > vy * dx,
            vy * dz > vz * dy,
    {
        assert(vx * dy * dz > vy * dx * dz);
        assert(vy * dz * dx > vz * dy * dx);
    }
}

/// From attempt `a` on, when candidate `p` passes, the search selects the
/// first passing candidate in `a..=p`.
proof fn lemma_search_first_passing(
    base_seed: Seq<u8>,
    depth: nat,
    heads: nat,
    constraints: TopologyConstraints,
    a: nat,
    best: Option<u32>,
    p: u32,
)
    requires
        a <= p < constraints.max_attempts,
        passes_spec(candidate_diagnostics(base_seed, depth, heads, p), constraints),
    ensures
        ({
            let r = search_from(base_seed, depth, heads, constraints, a, best);
            &&& a <= r <= p
            &&& passes_spec(candidate_diagnostics(base_seed, depth, heads, r), constraints)
            &&& forall|x: u32|
                a <= x < r ==> !passes_spec(#[trigger] candidate_diagnostics(base_seed, depth, heads, x), constraints)
        }),
    decreases p - a,
{
    let d = candidate_diagnostics(base_seed, depth, heads, a as u32);
    if !passes_spec(d, constraints) {
        let nb: u32 = match best {
            None => a as u32,
            Some(b) => if score_gt(d, candidate_diagnostics(base_seed, depth, heads, b)) {
                a as u32
            } else {
                b
            },
        };
        lemma_search_first_passing(base_seed, depth, heads, constraints, a + 1, Some(nb), p);
        let r = search_from(base_seed, depth, heads, constraints, a + 1, Some(nb));
        assert forall|x: u32| a <= x < r implies !passes_spec(
            #[trigger] candidate_diagnostics(base_seed, depth, heads, x),
            constraints,
        ) by {
            if x == a {
                assert(x == a as u32);
            }
        }
    }
}

/// From attempt `a` on, when no candidate passes, the search selects a
/// tried candidate that no candidate tried outscores.
proof fn lemma_search_best(
    base_seed: Seq<u8>,
    depth: nat,
    heads: nat,
    constraints: TopologyConstraints,
    a: nat,
    best: Option<u32>,
)
    requires
        heads <= 4,
        constraints.max_attempts >= 1,
        a <= constraints.max_attempts,
        a == 0 <==> best is None,
        forall|x: u32|
            a <= x < constraints.max_attempts ==> !passes_spec(
                #[trigger] candidate_diagnostics(base_seed, depth, heads, x),
                constraints,
            ),
        best matches Some(b) ==> b < a && forall|x: u32|
            x < a ==> !score_gt(
                #[trigger] candidate_diagnostics(base_seed, depth, heads, x),
                candidate_diagnostics(base_seed, depth, heads, b),
            ),
    ensures
        search_from(base_seed, depth, heads, constraints, a, best) < constraints.max_attempts,
        forall|x: u32|
            x < constraints.max_attempts ==> !score_gt(
                #[trigger] candidate_diagnostics(base_seed, depth, heads, x),
                candidate_diagnostics(base_seed, depth, heads, search_from(base_seed, depth, heads, constraints, a, best)),
            ),
    decreases constraints.max_attempts - a,
{
    if a < constraints.max_attempts {
        let d = candidate_diagnostics(base_seed, depth, heads, a as u32);
        assert(!passes_spec(d, constraints));
        let nb: u32 = match best {
            None => a as u32,
            Some(b) => if score_gt(d, candidate_diagnostics(base_seed, depth, heads, b)) {
                a as u32
            } else {
                b
            },
        };
        let dn = candidate_diagnostics(base_seed, depth, heads, nb);
        assert forall|x: u32| x <= a implies !score_gt(#[trigger] candidate_diagnostics(base_seed, depth, heads, x), dn) by {
            let dx = candidate_diagnostics(base_seed, depth, heads, x);
            lemma_ratio_denominator(base_seed, depth, heads, x, depth);
            lemma_ratio_denominator(base_seed, depth, heads, nb, depth);
            if let Some(b) = best {
                let db = candidate_diagnostics(base_seed, depth, heads, b);
                lemma_ratio_denominator(base_seed, depth, heads, b, depth);
                if nb == a && x < a && score_gt(dx, dn) {
                    lemma_score_gt_transitive(dx, dn, db);
                }
            }
        }
        lemma_search_best(base_seed, depth, heads, constraints, a + 1, Some(nb));
    }
}

/// The topology search accepts the first candidate that satisfies the
/// constraints. When none of the `max_attempts` candidates does, it
/// accepts one of them that no other candidate outscores.
pub proof fn lemma_search_selects_first_passing(
    key: Seq<u8>,
    round_number: u32,
    identifier: Seq<u8>,
    constraints: TopologyConstraints,
)
    requires
        constraints.max_attempts >= 1,
    ensures
        ({
            let base = transformer_base_seed(key, round_number, identifier);
            let depth = shape_depth(base);
            let heads = shape_heads(base);
            let accepted = accepted_attempt(key, round_number, identifier, constraints);
            &&& accepted < constraints.max_attempts
            &&& (exists|p: u32|
                p < constraints.max_attempts && #[trigger] candidate_passes(key, round_number, identifier, constraints, p))
                ==> {
                &&& candidate_passes(key, round_number, identifier, constraints, accepted)
                &&& forall|x: u32|
                    x < accepted ==> !#[trigger] candidate_passes(key, round_number, identifier, constraints, x)
            }
            &&& (forall|p: u32|
                p < constraints.max_attempts ==> !#[trigger] candidate_passes(key, round_number, identifier, constraints, p))
                ==> forall|x: u32|
                x < constraints.max_attempts ==> !score_gt(
                    #[trigger] candidate_diagnostics(base, depth, heads, x),
                    candidate_diagnostics(base, depth, heads, accepted),
                )
        }),
{
    let base = transformer_base_seed(key, round_number, identifier);
    let depth = shape_depth(base);
    let heads = shape_heads(base);
    if exists|p: u32| p < constraints.max_attempts && #[trigger] candidate_passes(key, round_number, identifier, constraints, p) {
        let p = choose|p: u32| p < constraints.max_attempts && #[trigger] candidate_passes(key, round_number, identifier, constraints, p);
        lemma_search_first_passing(base, depth, heads, constraints, 0, None, p);
        let r = accepted_attempt(key, round_number, identifier, constraints);
        assert forall|x: u32| x < r implies !#[trigger] candidate_passes(key, round_number, identifier, constraints, x) by {
            assert(!passes_spec(candidate_diagnostics(base, depth, heads, x), constraints));
        }
    } else {
        assert forall|x: u32| 0 <= x < constraints.max_attempts implies !passes_spec(
            #[trigger] candidate_diagnostics(base, depth, heads, x),
            constraints,
        ) by {
            assert(!candidate_passes(key, round_number, identifier, constraints, x));
        }
        lemma_search_best(base, depth, heads, constraints, 0, None);
    }
}

} // verus!
