//! Mathematical model of the fixed-depth Merkle tree over a leaf sequence.
//!
//! Both tree implementations are specified against `node_at`: the hash of the
//! subtree of height `depth` whose leaf slots start at position `start`, with
//! absent slots holding the all-zero leaf.

use vstd::prelude::*;
use crate::digest::{node_hash, zero_leaf};
use vstd::arithmetic::power2::{pow2, lemma_pow2_pos, lemma_pow2_unfold, lemma_pow2_adds, lemma2_to64};
use vstd::arithmetic::div_mod::{
    lemma_fundamental_div_mod,
    lemma_fundamental_div_mod_converse,
    lemma_div_denominator,
    lemma_div_multiples_vanish,
    lemma_basic_div,
};

verus! {

/// Height of both trees: leaf indices are 32-bit values.
pub const TREE_DEPTH: usize = 32;

/// The root of the empty subtree of height `depth`.
pub open spec fn zero_node(depth: nat) -> Seq<u8>
    decreases depth,
{
    if depth == 0 {
        zero_leaf()
    } else {
        node_hash(zero_node((depth - 1) as nat), zero_node((depth - 1) as nat))
    }
}

/// The root of the subtree of height `depth` whose leaves are the slots
/// `start .. start + pow2(depth)` of `l`, absent slots reading as zero.
pub open spec fn node_at(l: Seq<Seq<u8>>, start: nat, depth: nat) -> Seq<u8>
    decreases depth,
{
    if depth == 0 {
        if start < l.len() {
            l[start as int]
        } else {
            zero_leaf()
        }
    } else {
        node_hash(
            node_at(l, start, (depth - 1) as nat),
            node_at(l, start + pow2((depth - 1) as nat), (depth - 1) as nat),
        )
    }
}

/// The Merkle root of the whole tree over the leaf sequence `l`.
pub open spec fn root_of(l: Seq<Seq<u8>>) -> Seq<u8> {
    node_at(l, 0, TREE_DEPTH as nat)
}

/// A subtree that starts at or past the end of the leaves is empty.
pub proof fn lemma_node_at_empty(l: Seq<Seq<u8>>, start: nat, depth: nat)
    requires
        start >= l.len(),
    ensures
        node_at(l, start, depth) == zero_node(depth),
    decreases depth,
{
    if depth > 0 {
        lemma_node_at_empty(l, start, (depth - 1) as nat);
        lemma_node_at_empty(l, start + pow2((depth - 1) as nat), (depth - 1) as nat);
    }
}

/// A subtree that lies wholly under a common prefix of two leaf sequences
/// has the same hash over both.
pub proof fn lemma_node_at_prefix(l: Seq<Seq<u8>>, l2: Seq<Seq<u8>>, start: nat, depth: nat)
    requires
        l.len() <= l2.len(),
        forall|j: int| 0 <= j < l.len() ==> l2[j] == l[j],
        start + pow2(depth) <= l.len(),
    ensures
        node_at(l2, start, depth) == node_at(l, start, depth),
    decreases depth,
{
    if depth == 0 {
        lemma2_to64();
        assert(start < l.len());
    } else {
        lemma_pow2_unfold(depth);
        lemma_node_at_prefix(l, l2, start, (depth - 1) as nat);
        lemma_node_at_prefix(l, l2, start + pow2((depth - 1) as nat), (depth - 1) as nat);
    }
}

/// Dividing by a power of two one bit at a time.
pub proof fn lemma_div_pow2_step(x: nat, e: nat)
    ensures
        (x / pow2(e)) / 2 == x / pow2(e + 1),
{
    lemma_pow2_pos(e);
    lemma_pow2_unfold(e + 1);
    lemma_div_denominator(x as int, pow2(e) as int, 2);
}

/// In a multiple of `pow2(i)`, every bit below `i` is zero.
pub proof fn lemma_low_bits_zero(m: nat, i: nat, j: nat)
    requires
        m % pow2(i) == 0,
        j < i,
    ensures
        (m / pow2(j)) % 2 == 0,
{
    let p = pow2(j);
    let d = pow2((i - j - 1) as nat);
    let k = m / pow2(i);
    lemma_pow2_pos(j);
    lemma_pow2_pos(i);
    lemma_pow2_pos((i - j - 1) as nat);
    lemma_pow2_adds(j, (i - j) as nat);
    lemma_pow2_unfold((i - j) as nat);
    lemma_fundamental_div_mod(m as int, pow2(i) as int);
    assert(m == p * (2 * (d * k))) by (nonlinear_arith)
        requires
            m == pow2(i) * k,
            pow2(i) == p * pow2((i - j) as nat),
            pow2((i - j) as nat) == 2 * d,
    ;
    lemma_div_multiples_vanish((2 * (d * k)) as int, p as int);
    assert(m / p == 2 * (d * k));
    lemma_fundamental_div_mod_converse((2 * (d * k)) as int, 2, (d * k) as int, 0);
}

/// A positive multiple of `p` is at least `p`.
pub proof fn lemma_multiple_ge(m: nat, p: nat)
    requires
        p > 0,
        m >= 1,
        m % p == 0,
    ensures
        m >= p,
{
    lemma_fundamental_div_mod(m as int, p as int);
    assert(m >= p) by (nonlinear_arith)
        requires
            m == p * (m / p),
            m >= 1,
            p > 0,
    ;
}

/// Subtracting one from a non-multiple of `p` keeps the quotient.
pub proof fn lemma_div_pred(m: nat, p: nat)
    requires
        p > 0,
        m % p != 0,
    ensures
        m >= 1,
        ((m - 1) as nat) / p == m / p,
{
    lemma_fundamental_div_mod(m as int, p as int);
    let q = m / p;
    let r = m % p;
    assert(m - 1 == q * p + (r - 1)) by (nonlinear_arith)
        requires
            m == p * q + r,
            r >= 1,
    ;
    lemma_fundamental_div_mod_converse((m - 1) as int, p as int, q as int, (r - 1) as int);
}

/// If bit `i` of `m` is one, `m` is no multiple of any higher power of two.
pub proof fn lemma_odd_bit_nonzero_mod(m: nat, i: nat, j: nat)
    requires
        (m / pow2(i)) % 2 == 1,
        i < j,
    ensures
        m % pow2(j) != 0,
{
    if m % pow2(j) == 0 {
        lemma_low_bits_zero(m, j, i);
    }
}

/// Stepping past an even bit: the next power of two still divides `m`, and
/// the quotient halves.
pub proof fn lemma_even_step(m: nat, i: nat)
    requires
        m % pow2(i) == 0,
        (m / pow2(i)) % 2 == 0,
    ensures
        m % pow2(i + 1) == 0,
        m / pow2(i + 1) == (m / pow2(i)) / 2,
{
    let p = pow2(i);
    let q = m / p;
    let h = q / 2;
    lemma_pow2_pos(i);
    lemma_pow2_unfold(i + 1);
    lemma_fundamental_div_mod(m as int, p as int);
    lemma_fundamental_div_mod(q as int, 2);
    assert(m == pow2(i + 1) * h + 0) by (nonlinear_arith)
        requires
            m == p * q,
            q == 2 * h,
            pow2(i + 1) == 2 * p,
    ;
    lemma_fundamental_div_mod_converse(m as int, pow2(i + 1) as int, h as int, 0);
    lemma_div_pow2_step(m, i);
}

/// The predecessor of a positive multiple of `pow2(i + 1)`, read at height
/// `i`: its bit `i` is one, and the full subtree that bit stands for ends
/// exactly `pow2(i + 1)` slots below `m`.
pub proof fn lemma_pred_div_odd(m: nat, i: nat)
    requires
        m % pow2(i + 1) == 0,
        m >= 1,
    ensures
        m >= pow2(i + 1),
        (((m - 1) as nat) / pow2(i)) % 2 == 1,
        ((((m - 1) as nat) / pow2(i)) - 1) * pow2(i) == m - pow2(i + 1),
{
    let p = pow2(i);
    let p2 = pow2(i + 1);
    lemma_pow2_pos(i);
    lemma_pow2_pos(i + 1);
    lemma_pow2_unfold(i + 1);
    lemma_multiple_ge(m, p2);
    lemma_fundamental_div_mod(m as int, p2 as int);
    let k = m / p2;
    assert(k >= 1) by (nonlinear_arith)
        requires
            m == p2 * k,
            m >= 1,
    ;
    assert(m - 1 == (2 * k - 1) * p + (p - 1)) by (nonlinear_arith)
        requires
            m == p2 * k,
            p2 == 2 * p,
            p >= 1,
            k >= 1,
    ;
    lemma_fundamental_div_mod_converse((m - 1) as int, p as int, (2 * k - 1) as int, (p - 1) as int);
    lemma_fundamental_div_mod_converse((2 * k - 1) as int, 2, (k - 1) as int, 1);
    assert(((2 * k - 1) - 1) * p == m - p2) by (nonlinear_arith)
        requires
            m == p2 * k,
            p2 == 2 * p,
            k >= 1,
    ;
}

/// The starting slot of the sibling, at height `depth`, of the subtree that
/// contains leaf `index`.
pub open spec fn sibling_start(index: nat, depth: nat) -> nat {
    let q = index / pow2(depth);
    if q % 2 == 1 {
        ((q - 1) * pow2(depth)) as nat
    } else {
        (q + 1) * pow2(depth)
    }
}

/// A sibling subtree of a leaf inside the tree lies inside the tree as well.
pub proof fn lemma_sibling_start_bound(index: nat, d: nat)
    requires
        index < pow2(TREE_DEPTH as nat),
        d < TREE_DEPTH as nat,
    ensures
        sibling_start(index, d) + pow2(d) <= pow2(TREE_DEPTH as nat),
{
    let p = pow2(d);
    let q = index / p;
    let w = (TREE_DEPTH as nat - d) as nat;
    let k = pow2(w);
    lemma_pow2_pos(d);
    lemma_pow2_pos(w);
    lemma_pow2_pos((w - 1) as nat);
    lemma_pow2_adds(d, w);
    lemma_pow2_unfold(w);
    lemma_fundamental_div_mod(index as int, p as int);
    let r = index % p;
    assert(q < k) by (nonlinear_arith)
        requires
            index == p * q + r,
            r >= 0,
            index < p * k,
            p > 0,
    ;
    if q % 2 == 1 {
        assert((q - 1) * p + p <= p * k) by (nonlinear_arith)
            requires
                q < k,
                p > 0,
                q >= 1,
        ;
    } else {
        let h = pow2((w - 1) as nat);
        lemma_fundamental_div_mod(q as int, 2);
        if q + 2 > k {
            assert(false) by (nonlinear_arith)
                requires
                    q == 2 * (q / 2),
                    k == 2 * h,
                    q < k,
                    q + 2 > k,
            ;
        }
        assert((q + 1) * p + p <= p * k) by (nonlinear_arith)
            requires
                q + 2 <= k,
                p > 0,
        ;
    }
}

/// The inclusion-proof path for leaf `index`: one sibling hash per height.
pub open spec fn proof_path(l: Seq<Seq<u8>>, index: nat) -> Seq<Seq<u8>> {
    Seq::new(TREE_DEPTH as nat, |d: int| node_at(l, sibling_start(index, d as nat), d as nat))
}

/// Recomputing a root from a leaf and a sibling path, taking the leaf's own
/// subtree together with the sibling hash at each height in turn.
pub open spec fn climb(cur: Seq<u8>, path: Seq<Seq<u8>>, index: nat, depth: nat) -> Seq<u8>
    decreases depth,
{
    if depth == 0 {
        cur
    } else {
        let d = (depth - 1) as nat;
        let below = climb(cur, path, index, d);
        if (index / pow2(d)) % 2 == 1 {
            node_hash(path[d as int], below)
        } else {
            node_hash(below, path[d as int])
        }
    }
}

/// Climbing the first `depth` path entries lands on the hash of the height-
/// `depth` subtree that contains leaf `index`.
pub proof fn lemma_climb_to_node(l: Seq<Seq<u8>>, index: nat, depth: nat)
    requires
        index < l.len(),
        depth <= TREE_DEPTH as nat,
    ensures
        climb(l[index as int], proof_path(l, index), index, depth)
            == node_at(l, (index / pow2(depth)) * pow2(depth), depth),
    decreases depth,
{
    lemma_pow2_pos(depth);
    if depth == 0 {
        lemma2_to64();
    } else {
        let d = (depth - 1) as nat;
        lemma_pow2_pos(d);
        lemma_climb_to_node(l, index, d);
        let q = index / pow2(d);
        lemma_div_pow2_step(index, d);
        assert(index / pow2(depth) == q / 2);
        lemma_fundamental_div_mod(q as int, 2);
        lemma_pow2_unfold(depth);
        if q % 2 == 1 {
            assert((q / 2) * pow2(depth) == (q - 1) * pow2(d)) by (nonlinear_arith)
                requires
                    q == 2 * (q / 2) + 1,
                    pow2(depth) == 2 * pow2(d),
            ;
            assert((q - 1) * pow2(d) + pow2(d) == q * pow2(d)) by (nonlinear_arith)
                requires
                    q >= 1,
            ;
        } else {
            assert((q / 2) * pow2(depth) == q * pow2(d)) by (nonlinear_arith)
                requires
                    q == 2 * (q / 2),
                    pow2(depth) == 2 * pow2(d),
            ;
            assert(q * pow2(d) + pow2(d) == (q + 1) * pow2(d)) by (nonlinear_arith);
        }
    }
}

/// Inclusion-proof round trip: for a leaf below the current count, the leaf
/// value together with its sibling path recomputes exactly the tree root.
pub proof fn lemma_proof_round_trip(l: Seq<Seq<u8>>, index: nat)
    requires
        index < l.len(),
        l.len() <= pow2(TREE_DEPTH as nat),
    ensures
        climb(l[index as int], proof_path(l, index), index, TREE_DEPTH as nat) == root_of(l),
{
    lemma_climb_to_node(l, index, TREE_DEPTH as nat);
    lemma_pow2_pos(TREE_DEPTH as nat);
    lemma_basic_div(index as int, pow2(TREE_DEPTH as nat) as int);
}

} // verus!
