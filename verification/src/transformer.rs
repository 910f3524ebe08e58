//! Key-generated "Transformer" networks (nonlinear 8-byte -> 8-byte
//! mixing functions) and the reversible Feistel-style F/G coupling.

use crate::gf::{gf_mul, gf_mul_spec, lemma_xor_zero_eq};
use vstd::prelude::*;

verus! {

pub const BLOCK_SIZE: usize = 16;

pub const HALF_SIZE: usize = 8;

/// One (layer, head, output_node) -> (sources, weights) connection table.
pub type Connections = Vec<Vec<Vec<(Vec<usize>, Vec<u8>)>>>;

/// The value of one connection record: (sources, weights).
pub type NodeView = (Seq<usize>, Seq<u8>);

/// The value of a connection table.
pub type ConnectionsView = Seq<Seq<Seq<NodeView>>>;

/// A key-generated nonlinear mixing function operating on HALF_SIZE bytes.
///
/// depth/heads/topology/weights are all deterministically derived from
/// (key, round_number, identifier).
pub struct GeneratedTransformer {
    pub depth: usize,
    pub heads: usize,
    /// connections[layer][head][output_node] = (sources, weights), each len 3
    pub connections: Connections,
    pub sboxes: Vec<Vec<u8>>,
}

/// The value of a transformer.
pub struct TransformerModel {
    pub depth: nat,
    pub heads: nat,
    pub connections: ConnectionsView,
    pub sboxes: Seq<Seq<u8>>,
}

impl View for GeneratedTransformer {
    type V = TransformerModel;

    open spec fn view(&self) -> TransformerModel {
        TransformerModel {
            depth: self.depth as nat,
            heads: self.heads as nat,
            connections: self.connections.deep_view(),
            sboxes: self.sboxes.deep_view(),
        }
    }
}

// ============================================================
// Evaluation
// ============================================================

/// Number of (source, weight) pairs a node combines.
pub open spec fn node_len(node: NodeView) -> nat {
    if node.0.len() <= node.1.len() {
        node.0.len()
    } else {
        node.1.len()
    }
}

/// XOR of `weights[j] * state[sources[j]]` over `j < k`.
pub open spec fn node_acc(state: Seq<u8>, sources: Seq<usize>, weights: Seq<u8>, k: nat) -> u8
    decreases k,
{
    if k == 0 {
        0
    } else {
        node_acc(state, sources, weights, (k - 1) as nat) ^ gf_mul_spec(
            state[sources[k - 1] as int],
            weights[k - 1],
        )
    }
}

/// A node's output: the layer S-box applied to its weighted sum.
pub open spec fn node_output(state: Seq<u8>, node: NodeView, sbox: Seq<u8>) -> u8 {
    sbox[node_acc(state, node.0, node.1, node_len(node)) as int]
}

/// XOR over heads `< h` of their output at node `o`.
pub open spec fn heads_xor(state: Seq<u8>, layer: Seq<Seq<NodeView>>, sbox: Seq<u8>, h: nat, o: int) -> u8
    decreases h,
{
    if h == 0 {
        0
    } else {
        heads_xor(state, layer, sbox, (h - 1) as nat, o) ^ node_output(state, layer[h - 1][o], sbox)
    }
}

/// One layer: each of the 8 outputs is the XOR of every head's output.
pub open spec fn layer_spec(state: Seq<u8>, layer: Seq<Seq<NodeView>>, sbox: Seq<u8>, heads: nat) -> Seq<u8> {
    Seq::new(8, |o: int| heads_xor(state, layer, sbox, heads, o))
}

/// The state after the first `n` layers of `t` applied to `data`.
pub open spec fn transform_layers(data: Seq<u8>, t: TransformerModel, n: nat) -> Seq<u8>
    decreases n,
{
    if n == 0 {
        data
    } else {
        layer_spec(
            transform_layers(data, t, (n - 1) as nat),
            t.connections[n - 1],
            t.sboxes[n - 1],
            t.heads,
        )
    }
}

/// `TRANSFORM(data, t)`: all `t.depth` layers applied to `data`.
pub open spec fn transform_spec(data: Seq<u8>, t: TransformerModel) -> Seq<u8> {
    transform_layers(data, t, t.depth)
}

/// The transformer can be evaluated on inputs of length `input_len`
/// without an out-of-range access.
pub open spec fn transformer_wf(t: TransformerModel, input_len: nat) -> bool {
    &&& t.depth <= t.connections.len()
    &&& t.depth <= t.sboxes.len()
    &&& forall|l: int|
        #![trigger t.connections[l]]
        0 <= l < t.depth ==> {
            &&& t.heads <= t.connections[l].len()
            &&& t.sboxes[l].len() >= 256
            &&& forall|h: int|
                #![trigger t.connections[l][h]]
                0 <= h < t.heads ==> {
                    &&& t.connections[l][h].len() >= 8
                    &&& forall|o: int, k: int|
                        0 <= o < 8 && 0 <= k < node_len(t.connections[l][h][o]) ==> #[trigger] t.connections[l][h][o].0[k]
                            < if l == 0 {
                            input_len
                        } else {
                            8
                        }
                }
        }
}

/// The output of a transformer has 8 bytes (or is the input, when it has
/// no layers).
pub proof fn lemma_transform_len(data: Seq<u8>, t: TransformerModel)
    ensures
        transform_spec(data, t).len() == if t.depth == 0 {
            data.len()
        } else {
            8
        },
{
}

/// Weighted sum of one node's sources.
pub(crate) fn node_accumulate(state: &Vec<u8>, sources: &Vec<usize>, weights: &Vec<u8>) -> (acc: u8)
    requires
        forall|k: int|
            0 <= k < node_len((sources@, weights@)) ==> #[trigger] sources@[k] < state@.len(),
    ensures
        acc == node_acc(state@, sources@, weights@, node_len((sources@, weights@))),
{
    let n = if sources.len() <= weights.len() {
        sources.len()
    } else {
        weights.len()
    };
    let mut accumulator: u8 = 0;
    let mut k: usize = 0;
    while k < n
        invariant
            k <= n,
            n == node_len((sources@, weights@)),
            n <= sources@.len(),
            n <= weights@.len(),
            forall|j: int| 0 <= j < n ==> #[trigger] sources@[j] < state@.len(),
            accumulator == node_acc(state@, sources@, weights@, k as nat),
        decreases n - k,
    {
        accumulator ^= gf_mul(state[sources[k]], weights[k]);
        k += 1;
    }
    accumulator
}

/// 8 bytes -> 8 bytes. Need not be invertible itself (see coupling).
pub fn transformer_function(data: &[u8], transformer: &GeneratedTransformer) -> (out: Vec<u8>)
    requires
        transformer_wf(transformer@, data@.len()),
    ensures
        out@ == transform_spec(data@, transformer@),
{
    let ghost t = transformer@;
    let mut state: Vec<u8> = Vec::new();
    let mut i: usize = 0;
    while i < data.len()
        invariant
            i <= data@.len(),
            state@ == data@.subrange(0, i as int),
        decreases data@.len() - i,
    {
        state.push(data[i]);
        i += 1;
    }
    assert(state@ =~= data@);
    let mut layer: usize = 0;
    while layer < transformer.depth
        invariant
            t == transformer@,
            layer <= transformer.depth,
            transformer_wf(t, data@.len()),
            state@ == transform_layers(data@, t, layer as nat),
            layer > 0 ==> state@.len() == 8,
            layer == 0 ==> state@.len() == data@.len(),
        decreases transformer.depth - layer,
    {
        let layer_connections = &transformer.connections[layer];
        let sbox = &transformer.sboxes[layer];
        assert(layer_connections.deep_view() == t.connections[layer as int]);
        assert(sbox@ == t.sboxes[layer as int]);
        let mut new_state: Vec<u8> = vec![0u8, 0u8, 0u8, 0u8, 0u8, 0u8, 0u8, 0u8];
        let mut head: usize = 0;
        while head < transformer.heads
            invariant
                t == transformer@,
                layer < transformer.depth,
                transformer_wf(t, data@.len()),
                head <= transformer.heads,
                layer_connections.deep_view() == t.connections[layer as int],
                sbox@ == t.sboxes[layer as int],
                layer > 0 ==> state@.len() == 8,
                layer == 0 ==> state@.len() == data@.len(),
                new_state@.len() == 8,
                forall|o: int|
                    0 <= o < 8 ==> #[trigger] new_state@[o] == heads_xor(
                        state@,
                        t.connections[layer as int],
                        sbox@,
                        head as nat,
                        o,
                    ),
            decreases transformer.heads - head,
        {
            let connections = &layer_connections[head];
            assert(connections.deep_view() == t.connections[layer as int][head as int]);
            let mut head_output: Vec<u8> = Vec::new();
            let mut output_node: usize = 0;
            while output_node < HALF_SIZE
                invariant
                    t == transformer@,
                    layer < transformer.depth,
                    head < transformer.heads,
                    transformer_wf(t, data@.len()),
                    output_node <= 8,
                    connections.deep_view() == t.connections[layer as int][head as int],
                    sbox@ == t.sboxes[layer as int],
                    layer > 0 ==> state@.len() == 8,
                    layer == 0 ==> state@.len() == data@.len(),
                    head_output@.len() == output_node,
                    forall|o: int|
                        0 <= o < output_node ==> #[trigger] head_output@[o] == node_output(
                            state@,
                            t.connections[layer as int][head as int][o],
                            sbox@,
                        ),
                decreases 8 - output_node,
            {
                let node = &connections[output_node];
                let ghost nv = t.connections[layer as int][head as int][output_node as int];
                assert(node.0@ == nv.0 && node.1@ == nv.1) by {
                    assert(connections.deep_view()[output_node as int] == node.deep_view());
                }
                let accumulator = node_accumulate(&state, &node.0, &node.1);
                head_output.push(sbox[accumulator as usize]);
                output_node += 1;
            }
            let mut o: usize = 0;
            while o < HALF_SIZE
                invariant
                    o <= 8,
                    new_state@.len() == 8,
                    head_output@.len() == 8,
                    forall|j: int|
                        0 <= j < 8 ==> #[trigger] new_state@[j] == if j < o {
                            heads_xor(state@, t.connections[layer as int], sbox@, (head + 1) as nat, j)
                        } else {
                            heads_xor(state@, t.connections[layer as int], sbox@, head as nat, j)
                        },
                    forall|j: int|
                        0 <= j < 8 ==> #[trigger] head_output@[j] == node_output(
                            state@,
                            t.connections[layer as int][head as int][j],
                            sbox@,
                        ),
                decreases 8 - o,
            {
                let v = new_state[o] ^ head_output[o];
                new_state.set(o, v);
                o += 1;
            }
            head += 1;
        }
        proof {
            assert(new_state@ =~= layer_spec(
                state@,
                t.connections[layer as int],
                sbox@,
                t.heads,
            ));
        }
        state = new_state;
        layer += 1;
    }
    state
}

} // verus!

verus! {

// ============================================================
// Reversible coupling (Feistel-style; uses precomputed F/G)
// ============================================================

/// Bytewise XOR of two strings, as long as the shorter one.
pub open spec fn xor_bytes(x: Seq<u8>, y: Seq<u8>) -> Seq<u8> {
    Seq::new(
        if x.len() <= y.len() {
            x.len()
        } else {
            y.len()
        },
        |i: int| x[i] ^ y[i],
    )
}

/// `COUPLE((A, B), F, G) = (A XOR G(B'), B')` with `B' = B XOR F(A)`.
pub open spec fn coupling_spec(block: Seq<u8>, f: TransformerModel, g: TransformerModel) -> Seq<u8> {
    let a = block.subrange(0, 8);
    let b = block.subrange(8, block.len() as int);
    let b_prime = xor_bytes(b, transform_spec(a, f));
    let a_prime = xor_bytes(a, transform_spec(b_prime, g));
    a_prime + b_prime
}

/// `INVCOUPLE((A', B'), F, G) = (A, B' XOR F(A))` with `A = A' XOR G(B')`.
pub open spec fn inverse_coupling_spec(block: Seq<u8>, f: TransformerModel, g: TransformerModel) -> Seq<u8> {
    let a_prime = block.subrange(0, 8);
    let b_prime = block.subrange(8, block.len() as int);
    let a = xor_bytes(a_prime, transform_spec(b_prime, g));
    let b = xor_bytes(b_prime, transform_spec(a, f));
    a + b
}

/// Bytewise XOR of two byte strings, truncated to the shorter one.
pub(crate) fn xor_vec(x: &[u8], y: &[u8]) -> (out: Vec<u8>)
    ensures
        out@ == xor_bytes(x@, y@),
{
    let n = if x.len() <= y.len() {
        x.len()
    } else {
        y.len()
    };
    let mut out: Vec<u8> = Vec::new();
    let mut i: usize = 0;
    while i < n
        invariant
            i <= n,
            n <= x@.len(),
            n <= y@.len(),
            out@ == xor_bytes(x@, y@).subrange(0, i as int),
            n == xor_bytes(x@, y@).len(),
        decreases n - i,
    {
        out.push(x[i] ^ y[i]);
        i += 1;
        proof {
            assert(out@ =~= xor_bytes(x@, y@).subrange(0, i as int));
        }
    }
    assert(out@ =~= xor_bytes(x@, y@));
    out
}

/// Concatenation of two byte vectors.
fn concat_vec(x: Vec<u8>, y: &[u8]) -> (out: Vec<u8>)
    ensures
        out@ == x@ + y@,
{
    let mut out = x;
    crate::kdf::append_bytes(&mut out, y);
    out
}

/// Reversible F/G coupling of one block.
pub fn reversible_coupling(block: &[u8], f: &GeneratedTransformer, g: &GeneratedTransformer) -> (out: Vec<u8>)
    requires
        block@.len() >= 8,
        transformer_wf(f@, 8),
        transformer_wf(g@, xor_bytes(block@.subrange(8, block@.len() as int), transform_spec(block@.subrange(0, 8), f@)).len()),
    ensures
        out@ == coupling_spec(block@, f@, g@),
{
    let a = &block[0..HALF_SIZE];
    let b = &block[HALF_SIZE..block.len()];
    let f_a = transformer_function(a, f);
    let b_prime = xor_vec(b, f_a.as_slice());
    let g_b = transformer_function(b_prime.as_slice(), g);
    let a_prime = xor_vec(a, g_b.as_slice());
    concat_vec(a_prime, b_prime.as_slice())
}

/// Inverse of `reversible_coupling`.
pub fn inverse_reversible_coupling(block: &[u8], f: &GeneratedTransformer, g: &GeneratedTransformer) -> (out: Vec<u8>)
    requires
        block@.len() >= 8,
        transformer_wf(g@, (block@.len() - 8) as nat),
        transformer_wf(f@, xor_bytes(block@.subrange(0, 8), transform_spec(block@.subrange(8, block@.len() as int), g@)).len()),
    ensures
        out@ == inverse_coupling_spec(block@, f@, g@),
{
    let a_prime = &block[0..HALF_SIZE];
    let b_prime = &block[HALF_SIZE..block.len()];
    let g_b = transformer_function(b_prime, g);
    let a = xor_vec(a_prime, g_b.as_slice());
    let f_a = transformer_function(a.as_slice(), f);
    let b = xor_vec(b_prime, f_a.as_slice());
    concat_vec(a, b.as_slice())
}

/// XOR-ing twice with the same 8 bytes gives back the original 8 bytes.
proof fn lemma_xor_bytes_twice(x: Seq<u8>, y: Seq<u8>)
    requires
        x.len() == 8,
        y.len() == 8,
    ensures
        xor_bytes(xor_bytes(x, y), y) == x,
{
    assert forall|i: int| 0 <= i < 8 implies #[trigger] xor_bytes(xor_bytes(x, y), y)[i] == x[i] by {
        lemma_xor_zero_eq(x[i], y[i]);
    }
    assert(xor_bytes(xor_bytes(x, y), y) =~= x);
}

/// For transformers defined on 8-byte halves, the inverse coupling undoes
/// the coupling of every 16-byte block, and the coupling undoes the
/// inverse coupling.
pub proof fn lemma_coupling_roundtrip(block: Seq<u8>, f: TransformerModel, g: TransformerModel)
    requires
        block.len() == 16,
        transformer_wf(f, 8),
        transformer_wf(g, 8),
    ensures
        inverse_coupling_spec(coupling_spec(block, f, g), f, g) == block,
        coupling_spec(inverse_coupling_spec(block, f, g), f, g) == block,
{
    let a = block.subrange(0, 8);
    let b = block.subrange(8, 16);
    lemma_transform_len(a, f);
    let fa = transform_spec(a, f);
    let b_prime = xor_bytes(b, fa);
    lemma_transform_len(b_prime, g);
    let gb = transform_spec(b_prime, g);
    let a_prime = xor_bytes(a, gb);
    let c = a_prime + b_prime;
    assert(c.subrange(0, 8) =~= a_prime);
    assert(c.subrange(8, 16) =~= b_prime);
    lemma_xor_bytes_twice(a, gb);
    lemma_xor_bytes_twice(b, fa);
    assert(inverse_coupling_spec(c, f, g) =~= block);

    let ap = block.subrange(0, 8);
    let bp = block.subrange(8, 16);
    lemma_transform_len(bp, g);
    let gbp = transform_spec(bp, g);
    let a2 = xor_bytes(ap, gbp);
    lemma_transform_len(a2, f);
    let fa2 = transform_spec(a2, f);
    let b2 = xor_bytes(bp, fa2);
    let d = a2 + b2;
    assert(d.subrange(0, 8) =~= a2);
    assert(d.subrange(8, 16) =~= b2);
    lemma_xor_bytes_twice(bp, fa2);
    lemma_xor_bytes_twice(ap, gbp);
    assert(coupling_spec(d, f, g) =~= block);
}

} // verus!

verus! {

// ============================================================
// Checking the shape of a transformer
// ============================================================

/// Every source of the first `node_len` entries of `node` is below `bound`.
pub open spec fn node_sources_ok(node: NodeView, bound: nat) -> bool {
    forall|k: int| 0 <= k < node_len(node) ==> #[trigger] node.0[k] < bound
}

/// A head has at least 8 nodes, each of whose sources is below `bound`.
pub open spec fn head_shape_ok(head: Seq<NodeView>, bound: nat) -> bool {
    &&& head.len() >= 8
    &&& forall|o: int| 0 <= o < 8 ==> #[trigger] node_sources_ok(head[o], bound)
}

fn node_ok(node: &(Vec<usize>, Vec<u8>), bound: usize) -> (r: bool)
    ensures
        r == node_sources_ok((node.0@, node.1@), bound as nat),
{
    let n = if node.0.len() <= node.1.len() {
        node.0.len()
    } else {
        node.1.len()
    };
    let mut k: usize = 0;
    while k < n
        invariant
            k <= n,
            n == node_len((node.0@, node.1@)),
            n <= node.0@.len(),
            forall|j: int| 0 <= j < k ==> #[trigger] node.0@[j] < bound,
        decreases n - k,
    {
        if node.0[k] >= bound {
            return false;
        }
        k += 1;
    }
    true
}

fn head_ok(head: &Vec<(Vec<usize>, Vec<u8>)>, bound: usize) -> (r: bool)
    ensures
        r == head_shape_ok(head.deep_view(), bound as nat),
{
    if head.len() < 8 {
        return false;
    }
    let mut o: usize = 0;
    while o < 8
        invariant
            o <= 8,
            head@.len() >= 8,
            forall|j: int| 0 <= j < o ==> #[trigger] node_sources_ok(head.deep_view()[j], bound as nat),
        decreases 8 - o,
    {
        let node = &head[o];
        assert(head.deep_view()[o as int] == (node.0@, node.1@)) by {
            assert(head.deep_view()[o as int] == node.deep_view());
        }
        if !node_ok(node, bound) {
            return false;
        }
        o += 1;
    }
    true
}

/// The bound on the sources of layer `l`: the input length for layer 0,
/// the 8-byte state afterwards.
pub open spec fn layer_bound(l: int, input_len: nat) -> nat {
    if l == 0 {
        input_len
    } else {
        8
    }
}

/// Layer `l` of `t` is well shaped for inputs of `input_len` bytes.
pub open spec fn layer_shape_ok(t: TransformerModel, l: int, input_len: nat) -> bool {
    &&& t.heads <= t.connections[l].len()
    &&& t.sboxes[l].len() >= 256
    &&& forall|h: int| 0 <= h < t.heads ==> #[trigger] head_shape_ok(t.connections[l][h], layer_bound(l, input_len))
}

proof fn lemma_layer_shape_ok(t: TransformerModel, input_len: nat)
    requires
        t.depth <= t.connections.len(),
        t.depth <= t.sboxes.len(),
    ensures
        transformer_wf(t, input_len) == forall|l: int| 0 <= l < t.depth ==> #[trigger] layer_shape_ok(t, l, input_len),
{
    if transformer_wf(t, input_len) {
        assert forall|l: int| 0 <= l < t.depth implies #[trigger] layer_shape_ok(t, l, input_len) by {
            let bound = layer_bound(l, input_len);
            assert forall|h: int| 0 <= h < t.heads implies #[trigger] head_shape_ok(t.connections[l][h], bound) by {
                assert(t.connections[l][h].len() >= 8);
                assert forall|o: int| 0 <= o < 8 implies #[trigger] node_sources_ok(t.connections[l][h][o], bound) by {
                    assert forall|k: int| 0 <= k < node_len(t.connections[l][h][o]) implies #[trigger] t.connections[l][h][o].0[k]
                        < bound by {
                        assert(t.connections[l][h][o].0[k] < bound);
                    }
                }
            }
        }
    }
    if forall|l: int| 0 <= l < t.depth ==> #[trigger] layer_shape_ok(t, l, input_len) {
        assert forall|l: int, h: int, o: int, k: int|
            0 <= l < t.depth && 0 <= h < t.heads && 0 <= o < 8 && 0 <= k < node_len(t.connections[l][h][o]) implies #[trigger] t.connections[l][h][o].0[k]
            < if l == 0 {
            input_len
        } else {
            8
        } by {
            assert(layer_shape_ok(t, l, input_len));
            assert(head_shape_ok(t.connections[l][h], layer_bound(l, input_len)));
            assert(node_sources_ok(t.connections[l][h][o], layer_bound(l, input_len)));
        }
        assert forall|l: int, h: int| 0 <= l < t.depth && 0 <= h < t.heads implies #[trigger] t.connections[l][h].len()
            >= 8 by {
            assert(layer_shape_ok(t, l, input_len));
            assert(head_shape_ok(t.connections[l][h], layer_bound(l, input_len)));
        }
        assert forall|l: int| 0 <= l < t.depth implies t.heads <= #[trigger] t.connections[l].len() && t.sboxes[l].len()
            >= 256 by {
            assert(layer_shape_ok(t, l, input_len));
        }
    }
}

impl GeneratedTransformer {
    /// Whether the transformer can be evaluated on inputs of `input_len`
    /// bytes: enough layers, heads, nodes and 256-entry S-boxes, and
    /// sources that index the layer's input.
    pub fn is_well_formed(&self, input_len: usize) -> (r: bool)
        ensures
            r == transformer_wf(self@, input_len as nat),
    {
        let ghost t = self@;
        if self.depth > self.connections.len() || self.depth > self.sboxes.len() {
            return false;
        }
        proof {
            lemma_layer_shape_ok(t, input_len as nat);
        }
        let mut l: usize = 0;
        while l < self.depth
            invariant
                t == self@,
                l <= t.depth,
                t.depth <= t.connections.len(),
                t.depth <= t.sboxes.len(),
                forall|j: int| 0 <= j < l ==> #[trigger] layer_shape_ok(t, j, input_len as nat),
            decreases t.depth - l,
        {
            let bound: usize = if l == 0 {
                input_len
            } else {
                8
            };
            let layer = &self.connections[l];
            assert(layer.deep_view() == t.connections[l as int]);
            assert(self.sboxes[l as int]@ == t.sboxes[l as int]);
            if self.heads > layer.len() || self.sboxes[l].len() < 256 {
                return false;
            }
            let mut h: usize = 0;
            while h < self.heads
                invariant
                    t == self@,
                    l < t.depth,
                    t.depth <= t.connections.len(),
                    layer.deep_view() == t.connections[l as int],
                    t.heads <= layer@.len(),
                    h <= t.heads,
                    bound as nat == layer_bound(l as int, input_len as nat),
                    forall|j: int| 0 <= j < h ==> #[trigger] head_shape_ok(t.connections[l as int][j], bound as nat),
                decreases t.heads - h,
            {
                assert(layer.deep_view()[h as int] == layer[h as int].deep_view());
                if !head_ok(&layer[h], bound) {
                    return false;
                }
                h += 1;
            }
            l += 1;
        }
        true
    }
}

} // verus!
