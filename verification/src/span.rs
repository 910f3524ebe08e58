//! GF(2) spans of 64-bit vectors and their echelon bases: a vector lies
//! in the span of a list when it is the XOR of some of the list's
//! entries.

use vstd::prelude::*;

verus! {

// ============================================================
// XOR combinations and spans
// ============================================================

/// XOR of the entries of `vs` whose flag in `sel` is set.
pub open spec fn xor_sel(vs: Seq<u64>, sel: Seq<bool>) -> u64
    decreases vs.len(),
{
    if vs.len() == 0 {
        0
    } else {
        xor_sel(vs.drop_last(), sel.drop_last()) ^ if sel.last() {
            vs.last()
        } else {
            0u64
        }
    }
}

/// `y` is the XOR of some entries of `vs`.
pub open spec fn in_span(vs: Seq<u64>, y: u64) -> bool {
    exists|sel: Seq<bool>| sel.len() == vs.len() && #[trigger] xor_sel(vs, sel) == y
}

/// Every entry of `vs` lies in the span of `ws`.
pub open spec fn generates(ws: Seq<u64>, vs: Seq<u64>) -> bool {
    forall|i: int| 0 <= i < vs.len() ==> #[trigger] in_span(ws, vs[i])
}

pub proof fn lemma_xor_u64_facts(a: u64, b: u64, c: u64, d: u64)
    by (bit_vector)
    ensures
        (a ^ b) ^ (c ^ d) == (a ^ c) ^ (b ^ d),
        a ^ 0 == a,
        0 ^ a == a,
        a ^ a == 0,
        (a ^ b) ^ b == a,
        a ^ b == b ^ a,
        (a ^ b) ^ c == a ^ (b ^ c),
{
}

/// Bit facts behind echelon reduction: a vector with no bits at or above
/// `ii = jj + 1` and bit `jj` set has highest bit `jj`, and loses it when
/// reduced by a vector with highest bit `jj`.
pub(crate) proof fn lemma_echelon_bits(v: u64, b: u64, ii: u64, jj: u64)
    by (bit_vector)
    ensures
        v >> 0u64 == 0 ==> v == 0,
        (ii == 64 || v >> ii == 0) && ii == jj + 1 && jj < 64 && (v >> jj) & 1 == 0 ==> v >> jj == 0,
        (ii == 64 || v >> ii == 0) && ii == jj + 1 && jj < 64 && (v >> jj) & 1 != 0 ==> v >> jj == 1,
        (ii == 64 || v >> ii == 0) && ii == jj + 1 && jj < 64 && (v >> jj) & 1 != 0 && b >> jj == 1 ==> (v
            ^ b) >> jj == 0,
        (0u64 >> jj) & 1 == 0,
        0u64 << jj == 0,
{
}

/// Flag-wise XOR of two selections.
pub open spec fn sel_xor(s: Seq<bool>, t: Seq<bool>) -> Seq<bool> {
    Seq::new(s.len(), |i: int| s[i] != t[i])
}

proof fn lemma_xor_sel_xor(vs: Seq<u64>, s: Seq<bool>, t: Seq<bool>)
    requires
        s.len() == vs.len(),
        t.len() == vs.len(),
    ensures
        xor_sel(vs, sel_xor(s, t)) == xor_sel(vs, s) ^ xor_sel(vs, t),
    decreases vs.len(),
{
    if vs.len() == 0 {
        lemma_xor_u64_facts(0, 0, 0, 0);
    } else {
        let st = sel_xor(s, t);
        assert(st.drop_last() =~= sel_xor(s.drop_last(), t.drop_last()));
        lemma_xor_sel_xor(vs.drop_last(), s.drop_last(), t.drop_last());
        let a = xor_sel(vs.drop_last(), s.drop_last());
        let b = xor_sel(vs.drop_last(), t.drop_last());
        let v = vs.last();
        let ta: u64 = if s.last() {
            v
        } else {
            0
        };
        let tb: u64 = if t.last() {
            v
        } else {
            0
        };
        lemma_xor_u64_facts(a, ta, b, tb);
        lemma_xor_u64_facts(v, v, 0, 0);
    }
}

/// Zero lies in every span.
pub proof fn lemma_span_zero(vs: Seq<u64>)
    ensures
        in_span(vs, 0),
    decreases vs.len(),
{
    let sel = Seq::new(vs.len(), |i: int| false);
    lemma_xor_sel_none(vs, sel);
}

proof fn lemma_xor_sel_none(vs: Seq<u64>, sel: Seq<bool>)
    requires
        sel.len() == vs.len(),
        forall|i: int| 0 <= i < sel.len() ==> !sel[i],
    ensures
        xor_sel(vs, sel) == 0,
    decreases vs.len(),
{
    if vs.len() > 0 {
        lemma_xor_sel_none(vs.drop_last(), sel.drop_last());
        lemma_xor_u64_facts(0, 0, 0, 0);
    }
}

proof fn lemma_xor_sel_single(vs: Seq<u64>, sel: Seq<bool>, i: int)
    requires
        sel.len() == vs.len(),
        0 <= i < vs.len(),
        forall|j: int| 0 <= j < sel.len() ==> sel[j] == (j == i),
    ensures
        xor_sel(vs, sel) == vs[i],
    decreases vs.len(),
{
    lemma_xor_u64_facts(vs[i], 0, 0, 0);
    if i == vs.len() - 1 {
        lemma_xor_sel_none(vs.drop_last(), sel.drop_last());
    } else {
        lemma_xor_sel_single(vs.drop_last(), sel.drop_last(), i);
    }
}

/// Every entry lies in the span.
pub proof fn lemma_span_member(vs: Seq<u64>, i: int)
    requires
        0 <= i < vs.len(),
    ensures
        in_span(vs, vs[i]),
{
    let sel = Seq::new(vs.len(), |j: int| j == i);
    lemma_xor_sel_single(vs, sel, i);
}

/// Spans are closed under XOR.
pub proof fn lemma_span_xor(vs: Seq<u64>, a: u64, b: u64)
    requires
        in_span(vs, a),
        in_span(vs, b),
    ensures
        in_span(vs, a ^ b),
{
    let s = choose|s: Seq<bool>| s.len() == vs.len() && #[trigger] xor_sel(vs, s) == a;
    let t = choose|t: Seq<bool>| t.len() == vs.len() && #[trigger] xor_sel(vs, t) == b;
    lemma_xor_sel_xor(vs, s, t);
}

/// Appending a vector keeps every element of the span.
pub proof fn lemma_span_push(vs: Seq<u64>, v: u64, y: u64)
    requires
        in_span(vs, y),
    ensures
        in_span(vs.push(v), y),
{
    let s = choose|s: Seq<bool>| s.len() == vs.len() && #[trigger] xor_sel(vs, s) == y;
    let s2 = s.push(false);
    assert(vs.push(v).drop_last() =~= vs);
    assert(s2.drop_last() =~= s);
    lemma_xor_u64_facts(y, 0, 0, 0);
    assert(xor_sel(vs.push(v), s2) == y);
}

/// A span of vectors that all lie in the span of `ws` lies in it too.
pub proof fn lemma_span_subset(vs: Seq<u64>, ws: Seq<u64>, y: u64)
    requires
        generates(ws, vs),
        in_span(vs, y),
    ensures
        in_span(ws, y),
    decreases vs.len(),
{
    let s = choose|s: Seq<bool>| s.len() == vs.len() && #[trigger] xor_sel(vs, s) == y;
    if vs.len() == 0 {
        lemma_span_zero(ws);
    } else {
        let p = xor_sel(vs.drop_last(), s.drop_last());
        assert(generates(ws, vs.drop_last())) by {
            assert forall|i: int| 0 <= i < vs.drop_last().len() implies #[trigger] in_span(ws, vs.drop_last()[i]) by {
                assert(in_span(ws, vs[i]));
            }
        }
        lemma_span_subset(vs.drop_last(), ws, p);
        let t: u64 = if s.last() {
            vs.last()
        } else {
            0
        };
        if s.last() {
            assert(in_span(ws, vs[vs.len() - 1]));
        } else {
            lemma_span_zero(ws);
        }
        lemma_span_xor(ws, p, t);
    }
}

/// `generates` is transitive.
pub proof fn lemma_generates_trans(a: Seq<u64>, b: Seq<u64>, c: Seq<u64>)
    requires
        generates(a, b),
        generates(b, c),
    ensures
        generates(a, c),
{
    assert forall|i: int| 0 <= i < c.len() implies #[trigger] in_span(a, c[i]) by {
        lemma_span_subset(b, a, c[i]);
    }
}

// ============================================================
// Echelon bases
// ============================================================

/// 64 slots; a nonzero slot `i` holds a vector whose highest set bit is `i`.
pub open spec fn basis_wf(b: Seq<u64>) -> bool {
    &&& b.len() == 64
    &&& forall|i: int| 0 <= i < 64 && b[i] != 0 ==> (#[trigger] b[i]) >> (i as u64) == 1
}

/// Reduces `v` against the slots below `i` (highest first), storing it in
/// the first empty slot at its highest set bit.
pub open spec fn reduce_insert(b: Seq<u64>, v: u64, i: nat) -> Seq<u64>
    decreases i,
{
    if i == 0 {
        b
    } else {
        let j = (i - 1) as nat;
        if (v >> (j as u64)) & 1 == 0 {
            reduce_insert(b, v, j)
        } else if b[j as int] == 0 {
            b.update(j as int, v)
        } else {
            reduce_insert(b, v ^ b[j as int], j)
        }
    }
}

/// `b` with `v` inserted.
pub open spec fn basis_insert(b: Seq<u64>, v: u64) -> Seq<u64> {
    reduce_insert(b, v, 64)
}

/// The empty basis.
pub open spec fn empty_basis() -> Seq<u64> {
    Seq::new(64, |i: int| 0u64)
}

/// The basis built by inserting `gens` in order.
pub open spec fn basis_of(gens: Seq<u64>) -> Seq<u64>
    decreases gens.len(),
{
    if gens.len() == 0 {
        empty_basis()
    } else {
        basis_insert(basis_of(gens.drop_last()), gens.last())
    }
}

/// The nonzero slots among the first `k`, in slot order.
pub open spec fn basis_vectors_below(b: Seq<u64>, k: nat) -> Seq<u64>
    decreases k,
{
    if k == 0 {
        Seq::empty()
    } else if b[k - 1] != 0 {
        basis_vectors_below(b, (k - 1) as nat).push(b[k - 1])
    } else {
        basis_vectors_below(b, (k - 1) as nat)
    }
}

/// The nonzero slots, in slot order.
pub open spec fn basis_vectors(b: Seq<u64>) -> Seq<u64> {
    basis_vectors_below(b, 64)
}

proof fn lemma_reduce_insert(b: Seq<u64>, v0: u64, v: u64, i: nat)
    requires
        basis_wf(b),
        i <= 64,
        in_span(b, v ^ v0),
        i < 64 ==> v >> (i as u64) == 0,
    ensures
        basis_wf(reduce_insert(b, v, i)),
        generates(b.push(v0), reduce_insert(b, v, i)),
        generates(reduce_insert(b, v, i), b.push(v0)),
    decreases i,
{
    let r = reduce_insert(b, v, i);
    if i == 0 {
        assert(v >> 0u64 == 0);
        lemma_echelon_bits(v, 0, 0, 0);
        lemma_xor_u64_facts(v0, 0, 0, 0);
        // v0 = v ^ v0 lies in span(b); b generates itself.
        assert forall|k: int| 0 <= k < r.len() implies #[trigger] in_span(b.push(v0), r[k]) by {
            lemma_span_member(b, k);
            lemma_span_push(b, v0, r[k]);
        }
        assert forall|k: int| 0 <= k < b.push(v0).len() implies #[trigger] in_span(r, b.push(v0)[k]) by {
            if k < 64 {
                lemma_span_member(b, k);
            }
        }
    } else {
        let j = (i - 1) as nat;
        let bj = b[j as int];
        let jj: u64 = j as u64;
        let ii: u64 = i as u64;
        assert(ii == 64 || v >> ii == 0);
        assert(ii == jj + 1);
        lemma_echelon_bits(v, bj, ii, jj);
        if (v >> (j as u64)) & 1 == 0 {
            lemma_reduce_insert(b, v0, v, j);
        } else if bj == 0 {
            // r = b with slot j set to v.
            let c = v ^ v0;
            lemma_xor_u64_facts(v, v0, 0, 0);
            lemma_xor_u64_facts(v, c, 0, 0);
            assert(generates(r, b)) by {
                assert forall|k: int| 0 <= k < b.len() implies #[trigger] in_span(r, b[k]) by {
                    if k == j {
                        lemma_span_zero(r);
                    } else {
                        lemma_span_member(r, k);
                    }
                }
            }
            assert(generates(b.push(v0), b)) by {
                assert forall|k: int| 0 <= k < b.len() implies #[trigger] in_span(b.push(v0), b[k]) by {
                    lemma_span_member(b, k);
                    lemma_span_push(b, v0, b[k]);
                }
            }
            lemma_span_subset(b, r, c);
            lemma_span_member(r, j as int);
            lemma_span_xor(r, v, c);
            assert(v0 == v ^ c) by {
                lemma_xor_u64_facts(v, v, v0, 0);
                lemma_xor_u64_facts(v, v0, 0, 0);
                lemma_xor_u64_facts(0, v0, 0, 0);
                lemma_xor_u64_facts(v0, 0, 0, 0);
            }
            assert forall|k: int| 0 <= k < b.push(v0).len() implies #[trigger] in_span(r, b.push(v0)[k]) by {
                if k < 64 {
                    assert(in_span(r, b[k]));
                }
            }
            lemma_span_push(b, v0, c);
            lemma_span_member(b.push(v0), 64);
            assert(b.push(v0)[64] == v0);
            lemma_span_xor(b.push(v0), v0, c);
            assert(v0 ^ c == v) by {
                lemma_xor_u64_facts(v0, v, v0, 0);
                lemma_xor_u64_facts(v, v0, 0, 0);
                lemma_xor_u64_facts(v, v0, v0, 0);
            }
            assert forall|k: int| 0 <= k < r.len() implies #[trigger] in_span(b.push(v0), r[k]) by {
                if k != j {
                    assert(r[k] == b[k]);
                    assert(in_span(b.push(v0), b[k]));
                }
            }
        } else {
            assert(b[j as int] >> (j as u64) == 1);
            let v2 = v ^ bj;
            lemma_span_member(b, j as int);
            lemma_span_xor(b, v ^ v0, bj);
            assert((v ^ v0) ^ bj == v2 ^ v0) by {
                lemma_xor_u64_facts(v, v0, bj, 0);
                lemma_xor_u64_facts(v0, bj, 0, 0);
                lemma_xor_u64_facts(v, bj, v0, 0);
            }
            lemma_reduce_insert(b, v0, v2, j);
        }
    }
}

/// Inserting keeps the echelon shape and the span: the new basis and the
/// old one with `v` appended generate each other.
pub proof fn lemma_basis_insert(b: Seq<u64>, v: u64)
    requires
        basis_wf(b),
    ensures
        basis_wf(basis_insert(b, v)),
        generates(b.push(v), basis_insert(b, v)),
        generates(basis_insert(b, v), b.push(v)),
{
    lemma_xor_u64_facts(v, 0, 0, 0);
    lemma_span_zero(b);
    lemma_reduce_insert(b, v, v, 64);
}

} // verus!

verus! {

proof fn lemma_basis_vectors_below(b: Seq<u64>, k: nat)
    requires
        k <= b.len(),
    ensures
        generates(b, basis_vectors_below(b, k)),
        forall|i: int| 0 <= i < k ==> #[trigger] in_span(basis_vectors_below(b, k), b[i]),
    decreases k,
{
    let vs = basis_vectors_below(b, k);
    if k == 0 {
    } else {
        let prev = basis_vectors_below(b, (k - 1) as nat);
        lemma_basis_vectors_below(b, (k - 1) as nat);
        if b[k - 1] != 0 {
            assert(vs == prev.push(b[k - 1]));
            assert forall|i: int| 0 <= i < vs.len() implies #[trigger] in_span(b, vs[i]) by {
                if i < prev.len() {
                    assert(vs[i] == prev[i]);
                    assert(in_span(b, prev[i]));
                } else {
                    lemma_span_member(b, k - 1);
                }
            }
            assert forall|i: int| 0 <= i < k implies #[trigger] in_span(vs, b[i]) by {
                if i < k - 1 {
                    assert(in_span(prev, b[i]));
                    lemma_span_push(prev, b[k - 1], b[i]);
                } else {
                    lemma_span_member(vs, vs.len() - 1);
                }
            }
        } else {
            assert forall|i: int| 0 <= i < k implies #[trigger] in_span(vs, b[i]) by {
                if i < k - 1 {
                    assert(in_span(prev, b[i]));
                } else {
                    lemma_span_zero(vs);
                }
            }
        }
    }
}

/// The nonzero slots of a basis generate the same span as all its slots.
pub proof fn lemma_basis_vectors(b: Seq<u64>)
    requires
        b.len() == 64,
    ensures
        generates(b, basis_vectors(b)),
        generates(basis_vectors(b), b),
{
    lemma_basis_vectors_below(b, 64);
}

/// The basis built from `gens` is an echelon basis generating the same
/// Inserting zero leaves a basis unchanged.
pub proof fn lemma_basis_insert_zero(b: Seq<u64>)
    ensures
        basis_insert(b, 0) == b,
{
    lemma_reduce_insert_zero(b, 64);
}

proof fn lemma_reduce_insert_zero(b: Seq<u64>, i: nat)
    ensures
        reduce_insert(b, 0, i) == b,
    decreases i,
{
    if i > 0 {
        lemma_echelon_bits(0, 0, 0, (i - 1) as u64);
        lemma_reduce_insert_zero(b, (i - 1) as nat);
    }
}

/// span as `gens`.
pub proof fn lemma_basis_of(gens: Seq<u64>)
    ensures
        basis_wf(basis_of(gens)),
        generates(gens, basis_of(gens)),
        generates(basis_of(gens), gens),
    decreases gens.len(),
{
    if gens.len() == 0 {
        assert(basis_wf(empty_basis()));
        assert forall|i: int| 0 <= i < 64 implies #[trigger] in_span(gens, basis_of(gens)[i]) by {
            lemma_span_zero(gens);
        }
    } else {
        let prev = gens.drop_last();
        let b = basis_of(prev);
        let v = gens.last();
        lemma_basis_of(prev);
        lemma_basis_insert(b, v);
        // b.push(v) and gens generate each other.
        assert(gens =~= prev.push(v));
        assert(generates(gens, b.push(v))) by {
            assert forall|i: int| 0 <= i < b.push(v).len() implies #[trigger] in_span(gens, b.push(v)[i]) by {
                if i < 64 {
                    assert(in_span(prev, b[i]));
                    lemma_span_push(prev, v, b[i]);
                } else {
                    lemma_span_member(gens, gens.len() - 1);
                }
            }
        }
        assert(generates(b.push(v), gens)) by {
            assert forall|i: int| 0 <= i < gens.len() implies #[trigger] in_span(b.push(v), gens[i]) by {
                if i < prev.len() {
                    assert(in_span(b, prev[i]));
                    lemma_span_push(b, v, prev[i]);
                } else {
                    lemma_span_member(b.push(v), 64);
                }
            }
        }
        lemma_generates_trans(gens, b.push(v), basis_of(gens));
        lemma_generates_trans(basis_of(gens), b.push(v), gens);
    }
}

/// An echelon basis of 64-bit vectors (slot `i` holds a vector whose
/// highest set bit is `i`, or 0).
pub struct XorBasis64 {
    pub basis: Vec<u64>,
}

impl View for XorBasis64 {
    type V = Seq<u64>;

    open spec fn view(&self) -> Seq<u64> {
        self.basis@
    }
}

impl XorBasis64 {
    /// The empty basis.
    pub fn new() -> (b: Self)
        ensures
            b@ == empty_basis(),
    {
        let mut basis: Vec<u64> = Vec::new();
        let mut i: usize = 0;
        while i < 64
            invariant
                i <= 64,
                basis@ == Seq::new(i as nat, |j: int| 0u64),
            decreases 64 - i,
        {
            basis.push(0);
            i += 1;
            proof {
                assert(basis@ =~= Seq::new(i as nat, |j: int| 0u64));
            }
        }
        XorBasis64 { basis }
    }

    /// Inserts `v`: reduces it against the slots from the highest bit down
    /// and stores it at its highest remaining set bit (nothing when it
    /// reduces to 0, i.e. it already lies in the span).
    pub fn insert(&mut self, v: u64)
        requires
            old(self)@.len() == 64,
        ensures
            final(self)@ == basis_insert(old(self)@, v),
    {
        let ghost b0 = self@;
        let ghost v0 = v;
        let mut v = v;
        let mut i: usize = 64;
        let mut slot: usize = 64;
        while i > 0 && slot == 64
            invariant
                i <= 64,
                slot <= 64,
                self@ == b0,
                b0 == old(self)@,
                b0.len() == 64,
                slot == 64 ==> reduce_insert(b0, v, i as nat) == basis_insert(b0, v0),
                slot < 64 ==> b0.update(slot as int, v) == basis_insert(b0, v0),
            decreases i,
        {
            let j = i - 1;
            if (v >> (j as u64)) & 1 == 0 {
                i = j;
            } else if self.basis[j] == 0 {
                slot = j;
                i = j;
            } else {
                v = v ^ self.basis[j];
                i = j;
            }
        }
        if slot < 64 {
            self.basis.set(slot, v);
        }
    }

    /// Number of nonzero slots.
    pub fn rank(&self) -> (r: usize)
        requires
            self@.len() == 64,
        ensures
            r == basis_vectors(self@).len(),
    {
        self.vectors().len()
    }

    /// The nonzero slots, in slot order.
    pub fn vectors(&self) -> (vs: Vec<u64>)
        requires
            self@.len() == 64,
        ensures
            vs@ == basis_vectors(self@),
    {
        let mut vs: Vec<u64> = Vec::new();
        let mut i: usize = 0;
        while i < 64
            invariant
                i <= 64,
                self@.len() == 64,
                vs@ == basis_vectors_below(self@, i as nat),
            decreases 64 - i,
        {
            if self.basis[i] != 0 {
                vs.push(self.basis[i]);
            }
            i += 1;
        }
        vs
    }
}

} // verus!
