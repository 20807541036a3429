//! Append-only Merkle accumulator: a frontier of at most one hash per tree
//! height, enough to maintain the root of all ingested leaves in order, with
//! no proof-generation capability. It exists as an independently derived
//! cross-check against the fuller inclusion-proof tree.

use vstd::prelude::*;
use crate::digest::{Digest, hash_concat};
use crate::merkle::{
    TREE_DEPTH, node_at, root_of, zero_node,
    lemma_node_at_empty, lemma_node_at_prefix, lemma_div_pow2_step,
    lemma_low_bits_zero, lemma_div_pred,
    lemma_odd_bit_nonzero_mod, lemma_even_step, lemma_pred_div_odd,
};
use vstd::arithmetic::power2::{pow2, lemma_pow2_pos, lemma_pow2_unfold, lemma2_to64};
use vstd::arithmetic::div_mod::{
    lemma_fundamental_div_mod, lemma_basic_div, lemma_small_mod, lemma_mod_bound,
};

verus! {

/// Append-only Merkle tree keeping only the frontier hashes.
pub struct IncrementalMerkle {
    branch: Vec<Digest>,
    count: u64,
    leaves: Ghost<Seq<Seq<u8>>>,
}

impl IncrementalMerkle {
    /// The sequence of leaf hashes ingested so far.
    pub closed spec fn leaves(self) -> Seq<Seq<u8>> {
        self.leaves@
    }

    /// The root the structure stands for.
    pub open spec fn root_spec(self) -> Seq<u8> {
        root_of(self.leaves())
    }

    /// Frontier entry `i` carries the hash of the last complete height-`i`
    /// subtree whenever bit `i` of the leaf count is set.
    pub closed spec fn branch_ok(self, i: nat) -> bool {
        (self.leaves@.len() / pow2(i)) % 2 == 1 ==> self.branch@[i as int]@ == node_at(
            self.leaves@,
            (((self.leaves@.len() / pow2(i)) - 1) * pow2(i)) as nat,
            i,
        )
    }

    pub closed spec fn wf(self) -> bool {
        &&& self.branch@.len() == TREE_DEPTH
        &&& self.count as nat == self.leaves@.len()
        &&& self.count <= u32::MAX as u64
        &&& forall|i: nat| i < TREE_DEPTH as nat ==> #[trigger] self.branch_ok(i)
    }

    /// An empty accumulator.
    pub fn new() -> (r: IncrementalMerkle)
        ensures
            r.wf(),
            r.leaves() == Seq::<Seq<u8>>::empty(),
    {
        let branch = vec![Digest::zero(); TREE_DEPTH];
        let r = IncrementalMerkle { branch, count: 0, leaves: Ghost(Seq::empty()) };
        proof {
            assert forall|i: nat| i < TREE_DEPTH as nat implies #[trigger] r.branch_ok(i) by {
                lemma_pow2_pos(i);
                lemma_basic_div(0, pow2(i) as int);
            }
        }
        r
    }

    /// Leaves ingested so far.
    pub fn count(&self) -> (r: u64)
        requires
            self.wf(),
        ensures
            r as nat == self.leaves().len(),
    {
        self.count
    }

    /// Appends the next leaf, updating the frontier in O(log n).
    pub fn ingest(&mut self, element: &Digest)
        requires
            old(self).wf(),
            old(self).leaves().len() < u32::MAX as nat,
        ensures
            final(self).wf(),
            final(self).leaves() == old(self).leaves().push(element@),
    {
        let ghost l_old = self.leaves@;
        let ghost n = l_old.len();
        self.count = self.count + 1;
        proof {
            self.leaves@ = l_old.push(element@);
        }
        let ghost l = self.leaves@;
        let ghost m = self.count as nat;
        let mut node: Digest = *element;
        let mut size: u64 = self.count;
        let mut i: usize = 0;
        proof {
            lemma2_to64();
            assert(node@ == node_at(l, (m - pow2(0)) as nat, 0));
        }
        while i < 32
            invariant
                i <= 32,
                m == self.count as nat,
                1 <= m <= u32::MAX as nat,
                l == self.leaves@,
                l == l_old.push(element@),
                n == l_old.len(),
                m == n + 1,
                self.branch@ == old(self).branch@,
                self.branch@.len() == TREE_DEPTH,
                old(self).wf(),
                l_old == old(self).leaves@,
                size == m / pow2(i as nat),
                m % pow2(i as nat) == 0,
                pow2(i as nat) <= m,
                node@ == node_at(l, (m - pow2(i as nat)) as nat, i as nat),
            decreases 32 - i,
        {
            let ghost gi = i as nat;
            let ghost p = pow2(gi);
            if size % 2 == 1 {
                self.branch[i] = node;
                proof {
                    lemma_pow2_pos(gi);
                    lemma_fundamental_div_mod(m as int, p as int);
                    assert((size - 1) * p == m - p) by (nonlinear_arith)
                        requires
                            m == p * size + 0,
                            p >= 1,
                            size >= 1,
                    ;
                    assert forall|j: nat| j < TREE_DEPTH as nat implies #[trigger] self.branch_ok(j) by {
                        lemma_pow2_pos(j);
                        if j < gi {
                            lemma_low_bits_zero(m, gi, j);
                        } else if j == gi {
                            assert(self.branch@[j as int]@ == node@);
                        } else {
                            lemma_odd_bit_nonzero_mod(m, gi, j);
                            lemma_div_pred(m, pow2(j));
                            assert(old(self).branch_ok(j));
                            if (n / pow2(j)) % 2 == 1 {
                                let s = ((n / pow2(j)) - 1) * pow2(j);
                                lemma_fundamental_div_mod(n as int, pow2(j) as int);
                                assert(s + pow2(j) <= n) by (nonlinear_arith)
                                    requires
                                        n == pow2(j) * (n / pow2(j)) + n % pow2(j),
                                        n % pow2(j) >= 0,
                                        (n / pow2(j)) >= 1,
                                        s == ((n / pow2(j)) - 1) * pow2(j),
                                ;
                                lemma_node_at_prefix(l_old, l, s as nat, j);
                            }
                        }
                    }
                }
                return;
            }
            proof {
                lemma_pow2_pos(gi);
                lemma_pow2_unfold(gi + 1);
                lemma_even_step(m, gi);
                lemma_pred_div_odd(m, gi);
                assert(old(self).branch_ok(gi));
                let s = (m - pow2(gi + 1)) as nat;
                assert(s + pow2(gi) <= n);
                lemma_node_at_prefix(l_old, l, s, gi);
                assert(self.branch@[i as int]@ == node_at(l, s, gi));
            }
            node = hash_concat(&self.branch[i], &node);
            size = size / 2;
            i += 1;
        }
        proof {
            lemma2_to64();
            lemma_small_mod(m, pow2(32));
            assert(false);
        }
    }

    /// The current root, folded from the frontier in O(log n).
    pub fn root(&self) -> (r: Digest)
        requires
            self.wf(),
        ensures
            r@ == self.root_spec(),
    {
        let ghost l = self.leaves@;
        let ghost n = l.len();
        let mut node: Digest = Digest::zero();
        let mut zero_h: Digest = Digest::zero();
        let mut size: u64 = self.count;
        let mut i: usize = 0;
        proof {
            lemma2_to64();
            lemma_node_at_empty(l, n, 0);
            assert(node@ == node_at(l, ((n / pow2(0)) * pow2(0)) as nat, 0));
        }
        while i < 32
            invariant
                i <= 32,
                self.wf(),
                l == self.leaves@,
                n == l.len(),
                size == n / pow2(i as nat),
                node@ == node_at(l, ((n / pow2(i as nat)) * pow2(i as nat)) as nat, i as nat),
                zero_h@ == zero_node(i as nat),
            decreases 32 - i,
        {
            let ghost gi = i as nat;
            let ghost p = pow2(gi);
            let ghost q = n / p;
            proof {
                lemma_pow2_pos(gi);
                lemma_pow2_unfold(gi + 1);
                lemma_div_pow2_step(n, gi);
                lemma_fundamental_div_mod(q as int, 2);
                lemma_fundamental_div_mod(n as int, p as int);
                lemma_mod_bound(n as int, p as int);
            }
            if size % 2 == 1 {
                proof {
                    assert(self.branch_ok(gi));
                    assert((q / 2) * pow2(gi + 1) == (q - 1) * p) by (nonlinear_arith)
                        requires
                            q == 2 * (q / 2) + 1,
                            pow2(gi + 1) == 2 * p,
                    ;
                    assert((q - 1) * p + p == q * p) by (nonlinear_arith)
                        requires
                            q >= 1,
                    ;
                }
                node = hash_concat(&self.branch[i], &node);
            } else {
                proof {
                    assert((q / 2) * pow2(gi + 1) == q * p) by (nonlinear_arith)
                        requires
                            q == 2 * (q / 2),
                            pow2(gi + 1) == 2 * p,
                    ;
                    let r = n % p;
                    assert(q * p + p > n) by (nonlinear_arith)
                        requires
                            n == p * q + r,
                            r < p,
                    ;
                    lemma_node_at_empty(l, (q * p + p) as nat, gi);
                }
                node = hash_concat(&node, &zero_h);
            }
            zero_h = hash_concat(&zero_h, &zero_h);
            size = size / 2;
            i += 1;
        }
        proof {
            lemma2_to64();
            lemma_pow2_pos(32);
            lemma_basic_div(n as int, pow2(32) as int);
        }
        node
    }
}

} // verus!
