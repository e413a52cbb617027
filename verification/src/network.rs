//! The network state and pair contraction: a partial contraction is a list of
//! live tensor bitmasks together with the accumulated cost, a memory upper
//! bound, the mask of already-contracted legs (`id`) and the parent's `id`.

use vstd::prelude::*;
use crate::bits::{
    bit_set, closed_of, dims_ok, lemma_bit_set_ops, lemma_bits_to_disjoint, lemma_bits_to_submask,
    lemma_closed_bit, lemma_mask_size_submask_le,
    lemma_occ_one, lemma_occ_push, lemma_occ_remove, lemma_occ_two, lemma_pop_or_disjoint,
    lemma_pop_pos, lemma_size_from_pos, lemma_size_from_zero_mask, lemma_sum_sizes_push,
    lemma_xor_all_push, lemma_xor_all_remove, mask_size, occ, pop, size_from, sum_sizes, xor_all,
};
use std::io::Write;

verus! {

/// A partially contracted tensor network. `id` is the bitmask of legs already
/// contracted and identifies the state; the root has `id == 0` and is its own
/// parent. The per-bit dimension table is shared by every state and is passed
/// to the methods as an explicit read-only argument.
#[derive(Debug)]
pub struct TensorNetwork {
    /// Arithmetic cost accumulated over all contractions that led here.
    pub cpu: u64,
    /// Running maximum of a per-step memory upper bound (saturating).
    pub mem: u64,
    /// Bitmask of contracted legs; unique identifier of the state.
    pub id: u64,
    /// `id` of the predecessor state; the root is its own parent.
    pub parent: u64,
    /// Bitmasks of the live tensors.
    pub tensors: Vec<u64>,
    /// Whether the construction of each live tensor would allow a later outer
    /// product; only feeds the outer-product diagnostic.
    pub allows_outer: Vec<bool>,
}

/// `n` clipped to the `u64` range.
pub open spec fn sat64(n: nat) -> u64 {
    if n > u64::MAX {
        u64::MAX
    } else {
        n as u64
    }
}

pub open spec fn max3(a: nat, b: nat, c: nat) -> nat {
    if a >= b && a >= c {
        a
    } else if b >= c {
        b
    } else {
        c
    }
}

pub open spec fn max64(a: u64, b: u64) -> u64 {
    if a >= b {
        a
    } else {
        b
    }
}

/// Structural soundness of a state: the outer-product flags parallel the
/// tensor list and every live tensor has a representable size.
pub open spec fn tn_inv(dims: Seq<u64>, st: TensorNetwork) -> bool {
    &&& st.allows_outer@.len() == st.tensors@.len()
    &&& forall|k: int|
        0 <= k < st.tensors@.len() ==> mask_size(dims, #[trigger] st.tensors@[k]) <= u64::MAX
}

/// Relation of a state to the root tensor list `t0` it was reached from: the
/// XOR of the live tensors never changes, and each leg's occurrence count
/// drops to zero exactly when the leg enters `id` (a contraction consumes its
/// two carriers).
pub open spec fn net_wf(dims: Seq<u64>, t0: Seq<u64>, st: TensorNetwork) -> bool {
    &&& tn_inv(dims, st)
    &&& xor_all(st.tensors@) == xor_all(t0)
    &&& forall|b: u64|
        occ(t0, b) == occ(st.tensors@, b) + (if bit_set(st.id, b) {
            2nat
        } else {
            0nat
        })
}

/// A valid input never carries a leg on more than two tensors.
pub open spec fn occ_le_two(t0: Seq<u64>) -> bool {
    forall|b: u64| occ(t0, b) <= 2
}

/// Cost of contracting tensors with masks `ti` and `tj`: one multiply-add per
/// entry of the combined index set.
pub open spec fn step_cost(dims: Seq<u64>, ti: u64, tj: u64) -> nat {
    mask_size(dims, ti | tj)
}

/// Memory upper bound of one contraction step: all live tensors plus the
/// larger of the two operands and their result, assuming both operands are
/// copied to rearrange their legs.
pub open spec fn step_mem(dims: Seq<u64>, ts: Seq<u64>, i: int, j: int) -> nat {
    sum_sizes(dims, ts) + max3(
        mask_size(dims, ts[i]),
        mask_size(dims, ts[j]),
        mask_size(dims, ts[i] ^ ts[j]),
    )
}

/// Whether the tensor built from `ti` and `tj` would allow a later outer
/// product: the result swallows one operand and the cube of the shared-leg
/// product exceeds the other operand's size.
pub open spec fn allow_flag(dims: Seq<u64>, ti: u64, tj: u64) -> bool {
    let tij = ti ^ tj;
    let p3 = sat64((mask_size(dims, ti & tj) * mask_size(dims, ti & tj)) * mask_size(
        dims,
        ti & tj,
    ));
    ||| (tij & tj == 0 && p3 > mask_size(dims, ti))
    ||| (tij & ti == 0 && p3 > mask_size(dims, tj))
}

/// The pair `(i, j)` of a state can be contracted: the tensors share a leg
/// and the accumulated cost stays representable.
pub open spec fn step_ok(dims: Seq<u64>, st: TensorNetwork, i: int, j: int) -> bool {
    &&& 0 <= i < j < st.tensors@.len()
    &&& st.tensors@[i] & st.tensors@[j] != 0
    &&& st.cpu + step_cost(dims, st.tensors@[i], st.tensors@[j]) <= u64::MAX
}

/// `c` is exactly the state obtained from `p` by contracting the pair
/// `(i, j)`.
pub open spec fn child_matches(
    dims: Seq<u64>,
    p: TensorNetwork,
    i: int,
    j: int,
    c: TensorNetwork,
) -> bool {
    let ti = p.tensors@[i];
    let tj = p.tensors@[j];
    &&& c.cpu == p.cpu + step_cost(dims, ti, tj)
    &&& c.id == p.id | (ti & tj)
    &&& c.parent == p.id
    &&& c.tensors@ == p.tensors@.remove(j).remove(i).push(ti ^ tj)
    &&& c.allows_outer@ == p.allows_outer@.remove(j).remove(i).push(allow_flag(dims, ti, tj))
    &&& c.mem == max64(p.mem, sat64(step_mem(dims, p.tensors@, i, j)))
}

/// `c` is a child of `p`: some contractible pair of `p` produces it.
pub open spec fn is_child(dims: Seq<u64>, p: TensorNetwork, c: TensorNetwork) -> bool {
    exists|i: int, j: int| step_ok(dims, p, i, j) && #[trigger] child_matches(dims, p, i, j, c)
}

/// Relies on std::io::Stdout::write_fmt, through the writeln macro: prints a
/// diagnostic line on standard output. Nothing in the search depends on it.
#[verifier::external_body]
fn warn_outer_product(id: u64) {
    let _ = writeln!(
        std::io::stdout(),
        "Warning: outer product (not implemented) may be necessary to contract TN {}",
        id,
    );
}

/// A vector of `n` copies of `val`.
pub fn make_flags(n: usize, val: bool) -> (r: Vec<bool>)
    ensures
        r@.len() == n,
        forall|k: int| 0 <= k < n ==> r@[k] == val,
{
    let mut r: Vec<bool> = Vec::new();
    let mut k: usize = 0;
    while k < n
        invariant
            k <= n,
            r@.len() == k,
            forall|q: int| 0 <= q < k ==> r@[q] == val,
        decreases n - k,
    {
        r.push(val);
        k = k + 1;
    }
    r
}

/// A copy of a mask list.
pub fn copy_masks(ts: &Vec<u64>) -> (r: Vec<u64>)
    ensures
        r@ == ts@,
{
    let mut r: Vec<u64> = Vec::new();
    let mut k: usize = 0;
    while k < ts.len()
        invariant
            k <= ts@.len(),
            r@ == ts@.take(k as int),
        decreases ts.len() - k,
    {
        r.push(ts[k]);
        proof {
            assert(r@ =~= ts@.take(k + 1));
        }
        k = k + 1;
    }
    proof {
        assert(ts@.take(ts@.len() as int) =~= ts@);
    }
    r
}

/// A copy of a flag list.
pub fn copy_flags(ts: &Vec<bool>) -> (r: Vec<bool>)
    ensures
        r@ == ts@,
{
    let mut r: Vec<bool> = Vec::new();
    let mut k: usize = 0;
    while k < ts.len()
        invariant
            k <= ts@.len(),
            r@ == ts@.take(k as int),
        decreases ts.len() - k,
    {
        r.push(ts[k]);
        proof {
            assert(r@ =~= ts@.take(k + 1));
        }
        k = k + 1;
    }
    proof {
        assert(ts@.take(ts@.len() as int) =~= ts@);
    }
    r
}

/// Size of the tensor with mask `tensor`: product of the dimensions of its
/// legs. Unchecked form, for masks whose size is known to fit.
pub fn measure_mask(legs_dim: &Vec<u64>, tensor: u64) -> (s: u64)
    requires
        forall|i: int| 0 <= i < legs_dim@.len() ==> legs_dim@[i] >= 1,
        mask_size(legs_dim@, tensor) <= u64::MAX,
    ensures
        s == mask_size(legs_dim@, tensor),
{
    let mut s: u64 = 1;
    let mut t: u64 = tensor;
    let mut i: usize = 0;
    while i < legs_dim.len()
        invariant
            forall|q: int| 0 <= q < legs_dim@.len() ==> legs_dim@[q] >= 1,
            mask_size(legs_dim@, tensor) <= u64::MAX,
            i <= legs_dim@.len(),
            mask_size(legs_dim@, tensor) == s * size_from(legs_dim@, t, i as int),
        decreases legs_dim.len() - i,
    {
        let d = legs_dim[i];
        proof {
            lemma_size_from_pos(legs_dim@, t / 2, i + 1);
        }
        if t % 2 != 0 {
            proof {
                let rest = size_from(legs_dim@, t / 2, i + 1);
                assert(size_from(legs_dim@, t, i as int) == d as nat * rest);
                assert(s * (d as nat * rest) == (s * d as nat) * rest) by (nonlinear_arith);
                assert((s * d as nat) * rest >= (s * d as nat) * 1) by (nonlinear_arith)
                    requires
                        rest >= 1,
                ;
            }
            s = s * d;
        } else {
            if t == 0 {
                proof {
                    lemma_size_from_zero_mask(legs_dim@, i as int);
                }
                return s;
            }
            proof {
                assert(size_from(legs_dim@, t, i as int) == size_from(
                    legs_dim@,
                    t / 2,
                    i + 1,
                ));
            }
        }
        assert(t >> 1u64 == t / 2) by (bit_vector);
        t = t >> 1;
        i = i + 1;
    }
    proof {
        assert(size_from(legs_dim@, t, i as int) == 1);
        assert(mask_size(legs_dim@, tensor) == s * size_from(legs_dim@, t, i as int));
        assert(s * size_from(legs_dim@, t, i as int) == s * 1) by (nonlinear_arith)
            requires
                size_from(legs_dim@, t, i as int) == 1,
        ;
        assert(s as nat * 1 == s);
    }
    s
}

/// Checked form of `measure_mask`: `None` exactly when the product of the
/// dimensions does not fit in the word.
pub fn checked_measure_mask(legs_dim: &Vec<u64>, tensor: u64) -> (r: Option<u64>)
    requires
        forall|i: int| 0 <= i < legs_dim@.len() ==> legs_dim@[i] >= 1,
    ensures
        match r {
            Some(s) => s == mask_size(legs_dim@, tensor),
            None => mask_size(legs_dim@, tensor) > u64::MAX,
        },
{
    let mut s: u64 = 1;
    let mut t: u64 = tensor;
    let mut i: usize = 0;
    while i < legs_dim.len()
        invariant
            forall|q: int| 0 <= q < legs_dim@.len() ==> legs_dim@[q] >= 1,
            i <= legs_dim@.len(),
            mask_size(legs_dim@, tensor) == s * size_from(legs_dim@, t, i as int),
        decreases legs_dim.len() - i,
    {
        let d = legs_dim[i];
        proof {
            lemma_size_from_pos(legs_dim@, t / 2, i + 1);
        }
        if t % 2 != 0 {
            proof {
                let rest = size_from(legs_dim@, t / 2, i + 1);
                assert(size_from(legs_dim@, t, i as int) == d as nat * rest);
                assert(s * (d as nat * rest) == (s * d as nat) * rest) by (nonlinear_arith);
                assert((s * d as nat) * rest >= (s * d as nat) * 1) by (nonlinear_arith)
                    requires
                        rest >= 1,
                ;
            }
            s = match s.checked_mul(d) {
                Some(p) => p,
                None => {
                    return None;
                },
            };
        } else {
            if t == 0 {
                proof {
                    lemma_size_from_zero_mask(legs_dim@, i as int);
                }
                return Some(s);
            }
            proof {
                assert(size_from(legs_dim@, t, i as int) == size_from(
                    legs_dim@,
                    t / 2,
                    i + 1,
                ));
            }
        }
        assert(t >> 1u64 == t / 2) by (bit_vector);
        t = t >> 1;
        i = i + 1;
    }
    proof {
        assert(size_from(legs_dim@, t, i as int) == 1);
        assert(mask_size(legs_dim@, tensor) == s * size_from(legs_dim@, t, i as int));
        assert(s * size_from(legs_dim@, t, i as int) == s * 1) by (nonlinear_arith)
            requires
                size_from(legs_dim@, t, i as int) == 1,
        ;
        assert(s as nat * 1 == s);
    }
    Some(s)
}

impl TensorNetwork {
    /// Root state over the given tensors: nothing contracted, zero cost, and
    /// the memory estimate seeded with the total size of the inputs. Fails
    /// exactly when some tensor's size is not representable.
    pub fn new(legs_dim: &Vec<u64>, tensors: Vec<u64>) -> (r: Option<TensorNetwork>)
        requires
            dims_ok(legs_dim@),
        ensures
            match r {
                Some(tn) => {
                    &&& forall|k: int|
                        0 <= k < tensors@.len() ==> mask_size(
                            legs_dim@,
                            #[trigger] tensors@[k],
                        ) <= u64::MAX
                    &&& tn.cpu == 0
                    &&& tn.mem == sat64(sum_sizes(legs_dim@, tensors@))
                    &&& tn.id == 0
                    &&& tn.parent == 0
                    &&& tn.tensors@ == tensors@
                    &&& tn.allows_outer@.len() == tensors@.len()
                    &&& forall|k: int| 0 <= k < tensors@.len() ==> tn.allows_outer@[k]
                    &&& tn_inv(legs_dim@, tn)
                },
                None => exists|k: int|
                    0 <= k < tensors@.len() && mask_size(legs_dim@, #[trigger] tensors@[k])
                        > u64::MAX,
            },
    {
        let mut acc: u64 = 0;
        let mut k: usize = 0;
        proof {
            assert(tensors@.take(0) =~= Seq::<u64>::empty());
        }
        while k < tensors.len()
            invariant
                dims_ok(legs_dim@),
                k <= tensors@.len(),
                acc == sat64(sum_sizes(legs_dim@, tensors@.take(k as int))),
                forall|q: int|
                    0 <= q < k ==> mask_size(legs_dim@, #[trigger] tensors@[q]) <= u64::MAX,
            decreases tensors.len() - k,
        {
            let sz = match checked_measure_mask(legs_dim, tensors[k]) {
                Some(s) => s,
                None => {
                    return None;
                },
            };
            proof {
                assert(tensors@.take(k + 1) =~= tensors@.take(k as int).push(
                    tensors@[k as int],
                ));
                lemma_sum_sizes_push(legs_dim@, tensors@.take(k as int), tensors@[k as int]);
            }
            acc = acc.saturating_add(sz);
            k = k + 1;
        }
        proof {
            assert(tensors@.take(tensors@.len() as int) =~= tensors@);
        }
        let flags = make_flags(tensors.len(), true);
        Some(
            TensorNetwork {
                cpu: 0,
                mem: acc,
                id: 0,
                parent: 0,
                allows_outer: flags,
                tensors,
            },
        )
    }

    /// Size of the tensor with mask `tensor`: product of the dimensions of
    /// its legs. Unchecked form, for masks whose size is known to fit.
    pub fn measure(&self, legs_dim: &Vec<u64>, tensor: u64) -> (s: u64)
        requires
            forall|i: int| 0 <= i < legs_dim@.len() ==> legs_dim@[i] >= 1,
            mask_size(legs_dim@, tensor) <= u64::MAX,
        ensures
            s == mask_size(legs_dim@, tensor),
    {
        measure_mask(legs_dim, tensor)
    }

    /// Checked form of `measure`: `None` exactly when the product of the
    /// dimensions does not fit in the word.
    pub fn checked_measure(&self, legs_dim: &Vec<u64>, tensor: u64) -> (r: Option<u64>)
        requires
            forall|i: int| 0 <= i < legs_dim@.len() ==> legs_dim@[i] >= 1,
        ensures
            match r {
                Some(s) => s == mask_size(legs_dim@, tensor),
                None => mask_size(legs_dim@, tensor) > u64::MAX,
            },
    {
        checked_measure_mask(legs_dim, tensor)
    }

    /// The child obtained by contracting tensors `i0` and `j0`, or `None`
    /// when the pair shares no leg or the accumulated cost would overflow.
    pub fn contract_tensors(&self, legs_dim: &Vec<u64>, i0: usize, j0: usize) -> (r: Option<
        TensorNetwork,
    >)
        requires
            dims_ok(legs_dim@),
            tn_inv(legs_dim@, *self),
            i0 < self.tensors@.len(),
            j0 < self.tensors@.len(),
            i0 != j0,
        ensures
            ({
                let i = if i0 < j0 {
                    i0 as int
                } else {
                    j0 as int
                };
                let j = if i0 < j0 {
                    j0 as int
                } else {
                    i0 as int
                };
                match r {
                    Some(c) => step_ok(legs_dim@, *self, i, j) && child_matches(
                        legs_dim@,
                        *self,
                        i,
                        j,
                        c,
                    ),
                    None => !step_ok(legs_dim@, *self, i, j),
                }
            }),
    {
        let i = if i0 < j0 {
            i0
        } else {
            j0
        };
        let j = if i0 < j0 {
            j0
        } else {
            i0
        };
        let ti = self.tensors[i];
        let tj = self.tensors[j];
        let legs = ti & tj;
        if legs == 0 {
            return None;
        }
        let union_size = match self.checked_measure(legs_dim, ti | tj) {
            Some(s) => s,
            None => {
                return None;
            },
        };
        let cpu = match self.cpu.checked_add(union_size) {
            Some(c) => c,
            None => {
                return None;
            },
        };
        let ti_dot_tj = ti ^ tj;
        proof {
            assert((ti & tj) & ti == ti & tj && (ti ^ tj) & (ti | tj) == ti ^ tj && ti & (ti | tj)
                == ti && tj & (ti | tj) == tj) by (bit_vector);
            lemma_mask_size_submask_le(legs_dim@, ti & tj, ti);
            lemma_mask_size_submask_le(legs_dim@, ti ^ tj, ti | tj);
            lemma_mask_size_submask_le(legs_dim@, ti, ti | tj);
            lemma_mask_size_submask_le(legs_dim@, tj, ti | tj);
        }
        let ti_size = self.measure(legs_dim, ti);
        let tj_size = self.measure(legs_dim, tj);
        let tij_size = self.measure(legs_dim, ti_dot_tj);
        let legs_size = self.measure(legs_dim, legs);
        // Cube of the shared-leg product, saturating at the word.
        let legs_sizep3: u64 = match legs_size.checked_mul(legs_size) {
            Some(s2) => match s2.checked_mul(legs_size) {
                Some(s3) => s3,
                None => u64::MAX,
            },
            None => {
                proof {
                    let ls = mask_size(legs_dim@, legs);
                    assert(ls * ls * ls >= ls * ls) by (nonlinear_arith)
                        requires
                            ls * ls > u64::MAX,
                    ;
                }
                u64::MAX
            },
        };
        let allow_tij: bool = ((ti_dot_tj & tj == 0) && legs_sizep3 > ti_size) || ((ti_dot_tj & ti
            == 0) && legs_sizep3 > tj_size);
        // Saturating sum of the live tensor sizes.
        let mut mem_sum: u64 = 0;
        let mut k: usize = 0;
        proof {
            assert(self.tensors@.take(0) =~= Seq::<u64>::empty());
        }
        while k < self.tensors.len()
            invariant
                dims_ok(legs_dim@),
                tn_inv(legs_dim@, *self),
                k <= self.tensors@.len(),
                mem_sum == sat64(sum_sizes(legs_dim@, self.tensors@.take(k as int))),
            decreases self.tensors.len() - k,
        {
            let sz = self.measure(legs_dim, self.tensors[k]);
            proof {
                assert(self.tensors@.take(k + 1) =~= self.tensors@.take(k as int).push(
                    self.tensors@[k as int],
                ));
                lemma_sum_sizes_push(
                    legs_dim@,
                    self.tensors@.take(k as int),
                    self.tensors@[k as int],
                );
            }
            mem_sum = mem_sum.saturating_add(sz);
            k = k + 1;
        }
        proof {
            assert(self.tensors@.take(self.tensors@.len() as int) =~= self.tensors@);
        }
        let peak = if ti_size >= tj_size && ti_size >= tij_size {
            ti_size
        } else if tj_size >= tij_size {
            tj_size
        } else {
            tij_size
        };
        let step_mem_sat = mem_sum.saturating_add(peak);
        let mem = if self.mem >= step_mem_sat {
            self.mem
        } else {
            step_mem_sat
        };
        let mut child_tensors = copy_masks(&self.tensors);
        child_tensors.remove(j);
        child_tensors.remove(i);
        child_tensors.push(ti_dot_tj);
        let mut child_allow = copy_flags(&self.allows_outer);
        child_allow.remove(j);
        child_allow.remove(i);
        child_allow.push(allow_tij);
        Some(
            TensorNetwork {
                cpu,
                mem,
                parent: self.id,
                id: self.id | legs,
                tensors: child_tensors,
                allows_outer: child_allow,
            },
        )
    }

    /// Every child reachable by contracting one pair of live tensors that
    /// share at least one leg, skipping pairs whose cost overflows. Callers
    /// treat the result as a set. Also emits the outer-product diagnostic.
    pub fn generate_children(&self, legs_dim: &Vec<u64>) -> (children: Vec<TensorNetwork>)
        requires
            dims_ok(legs_dim@),
            tn_inv(legs_dim@, *self),
        ensures
            forall|k: int|
                0 <= k < children@.len() ==> is_child(legs_dim@, *self, #[trigger] children@[k]),
            forall|i: int, j: int|
                #[trigger] step_ok(legs_dim@, *self, i, j) ==> exists|k: int|
                    0 <= k < children@.len() && child_matches(
                        legs_dim@,
                        *self,
                        i,
                        j,
                        #[trigger] children@[k],
                    ),
    {
        let n = self.tensors.len();
        let mut k: usize = 0;
        while k < n
            invariant
                dims_ok(legs_dim@),
                tn_inv(legs_dim@, *self),
                n == self.tensors@.len(),
            decreases n - k,
        {
            if self.allows_outer[k] {
                let tk = self.tensors[k];
                let mut count: usize = 0;
                let mut q: usize = 0;
                while q < n
                    invariant
                        n == self.tensors@.len(),
                        count <= q <= n,
                    decreases n - q,
                {
                    if q != k && (self.tensors[q] ^ tk) & self.tensors[q] == 0 {
                        count = count + 1;
                    }
                    q = q + 1;
                }
                if count > 1 {
                    warn_outer_product(self.id);
                }
            }
            k = k + 1;
        }
        let mut children: Vec<TensorNetwork> = Vec::new();
        let mut i: usize = 0;
        while i < n
            invariant
                dims_ok(legs_dim@),
                tn_inv(legs_dim@, *self),
                n == self.tensors@.len(),
                i <= n,
                forall|kk: int|
                    0 <= kk < children@.len() ==> is_child(
                        legs_dim@,
                        *self,
                        #[trigger] children@[kk],
                    ),
                forall|a: int, b: int|
                    #[trigger] step_ok(legs_dim@, *self, a, b) && a < i ==> exists|kk: int|
                        0 <= kk < children@.len() && child_matches(
                            legs_dim@,
                            *self,
                            a,
                            b,
                            #[trigger] children@[kk],
                        ),
            decreases n - i,
        {
            let mut j: usize = i + 1;
            while j < n
                invariant
                    dims_ok(legs_dim@),
                    tn_inv(legs_dim@, *self),
                    n == self.tensors@.len(),
                    i < j || i + 1 == j,
                    i < n,
                    j <= n,
                    i + 1 <= j,
                    forall|kk: int|
                        0 <= kk < children@.len() ==> is_child(
                            legs_dim@,
                            *self,
                            #[trigger] children@[kk],
                        ),
                    forall|a: int, b: int|
                        #[trigger] step_ok(legs_dim@, *self, a, b) && (a < i || (a == i && b < j))
                            ==> exists|kk: int|
                            0 <= kk < children@.len() && child_matches(
                                legs_dim@,
                                *self,
                                a,
                                b,
                                #[trigger] children@[kk],
                            ),
                decreases n - j,
            {
                let ghost prev = children@;
                match self.contract_tensors(legs_dim, i, j) {
                    Some(child) => {
                        proof {
                            assert(step_ok(legs_dim@, *self, i as int, j as int));
                        }
                        children.push(child);
                        proof {
                            let last = prev.len() as int;
                            assert(children@[last] == child);
                            assert(child_matches(legs_dim@, *self, i as int, j as int, children@[last]));
                            assert(is_child(legs_dim@, *self, children@[last]));
                        }
                    },
                    None => {
                    },
                }
                proof {
                    assert forall|a: int, b: int|
                        #[trigger] step_ok(legs_dim@, *self, a, b) && (a < i || (a == i && b < j
                            + 1)) implies exists|kk: int|
                        0 <= kk < children@.len() && child_matches(
                            legs_dim@,
                            *self,
                            a,
                            b,
                            #[trigger] children@[kk],
                        ) by {
                        if a == i && b == j {
                            assert(0 <= prev.len() < children@.len() && child_matches(
                                legs_dim@,
                                *self,
                                a,
                                b,
                                children@[prev.len() as int],
                            ));
                        } else {
                            let kk = choose|kk: int|
                                0 <= kk < prev.len() && child_matches(
                                    legs_dim@,
                                    *self,
                                    a,
                                    b,
                                    #[trigger] prev[kk],
                                );
                            assert(children@[kk] == prev[kk]);
                            assert(child_matches(legs_dim@, *self, a, b, children@[kk]));
                        }
                    }
                }
                j = j + 1;
            }
            i = i + 1;
        }
        children
    }
}


/// The invariants of `net_wf` are preserved by one contraction step, the
/// identity strictly grows by the contracted legs, and the cost never
/// decreases.
pub proof fn lemma_step_preserves_wf(
    dims: Seq<u64>,
    t0: Seq<u64>,
    p: TensorNetwork,
    i: int,
    j: int,
    c: TensorNetwork,
)
    requires
        dims_ok(dims),
        occ_le_two(t0),
        net_wf(dims, t0, p),
        step_ok(dims, p, i, j),
        child_matches(dims, p, i, j, c),
    ensures
        net_wf(dims, t0, c),
        c.cpu >= p.cpu,
        c.parent == p.id,
        p.id & c.id == p.id,
        p.id ^ c.id == p.tensors@[i] & p.tensors@[j],
        pop(c.id) == pop(p.id) + pop(p.tensors@[i] & p.tensors@[j]),
        pop(c.id) > pop(p.id),
        c.id != p.id,
        xor_all(c.tensors@) == xor_all(p.tensors@),
        c.tensors@.len() + 1 == p.tensors@.len(),
{
    let s = p.tensors@;
    let ti = s[i];
    let tj = s[j];
    let shared = ti & tj;
    let tij = ti ^ tj;
    let s1 = s.remove(j);
    let s2 = s1.remove(i);
    let ct = s2.push(tij);
    assert(s1[i] == s[i]);
    assert(c.tensors@ == ct);

    // The XOR of the live tensors is unchanged: the two operands leave, their
    // symmetric difference enters.
    lemma_xor_all_remove(s, j);
    lemma_xor_all_remove(s1, i);
    lemma_xor_all_push(s2, tij);
    let x = xor_all(s);
    assert((((x ^ tj) ^ ti) ^ (ti ^ tj)) == x) by (bit_vector);

    // Per-leg bookkeeping: a contracted leg loses its two carriers, every
    // other leg keeps its count.
    assert forall|b: u64|
        occ(t0, b) == occ(c.tensors@, b) + (if bit_set(c.id, b) {
            2nat
        } else {
            0nat
        }) by {
        lemma_occ_remove(s, j, b);
        lemma_occ_remove(s1, i, b);
        lemma_occ_push(s2, tij, b);
        lemma_bit_set_ops(ti, tj, b);
        lemma_bit_set_ops(p.id, shared, b);
        if bit_set(ti, b) && bit_set(tj, b) {
            lemma_occ_two(s, i, j, b);
        }
        if bit_set(p.id, b) {
            if bit_set(ti, b) {
                lemma_occ_one(s, i, b);
            }
            if bit_set(tj, b) {
                lemma_occ_one(s, j, b);
            }
        }
    }

    // Every live tensor of the child has a representable size.
    assert(step_cost(dims, ti, tj) <= u64::MAX);
    assert((ti ^ tj) & (ti | tj) == (ti ^ tj)) by (bit_vector);
    lemma_mask_size_submask_le(dims, tij, ti | tj);
    assert forall|k: int| 0 <= k < ct.len() implies mask_size(dims, #[trigger] ct[k]) <= u64::MAX by {
        if k < ct.len() - 1 {
            let q1: int = if k < i {
                k
            } else {
                k + 1
            };
            let q2: int = if q1 < j {
                q1
            } else {
                q1 + 1
            };
            assert(ct[k] == s[q2]);
        } else {
            assert(ct[k] == tij);
        }
    }

    // The contracted legs were carried by two live tensors, so they are
    // disjoint from the parent identity, and the identity strictly grows.
    assert forall|b: u64| !(bit_set(p.id, b) && bit_set(shared, b)) by {
        lemma_bit_set_ops(ti, tj, b);
        assert(occ(t0, b) == occ(s, b) + (if bit_set(p.id, b) {
            2nat
        } else {
            0nat
        }));
        assert(occ(t0, b) <= 2);
        if bit_set(ti, b) && bit_set(tj, b) && bit_set(p.id, b) {
            lemma_occ_two(s, i, j, b);
        }
    }
    lemma_bits_to_disjoint(p.id, shared);
    lemma_pop_or_disjoint(p.id, shared);
    lemma_pop_pos(shared);
    let pid = p.id;
    assert(pid & (pid | shared) == pid && (pid ^ (pid | shared)) == shared) by (bit_vector)
        requires
            pid & shared == 0,
    ;
}


/// The contracted legs of a well-formed state are closed legs of the root
/// network: `id` is always a submask of the fully-contracted identity.
pub proof fn lemma_wf_id_in_closed(dims: Seq<u64>, t0: Seq<u64>, st: TensorNetwork)
    requires
        occ_le_two(t0),
        net_wf(dims, t0, st),
    ensures
        st.id & closed_of(t0) == st.id,
{
    assert forall|b: u64| bit_set(st.id, b) implies bit_set(closed_of(t0), b) by {
        assert(occ(t0, b) == occ(st.tensors@, b) + 2);
        assert(occ(t0, b) <= 2);
        lemma_closed_bit(t0, b);
    }
    lemma_bits_to_submask(st.id, closed_of(t0));
}

/// Cost monotonicity: a child never costs less than its parent.
pub proof fn lemma_child_cpu_monotone(dims: Seq<u64>, p: TensorNetwork, c: TensorNetwork)
    requires
        is_child(dims, p, c),
    ensures
        c.cpu >= p.cpu,
{
    let (i, j) = choose|i: int, j: int|
        step_ok(dims, p, i, j) && #[trigger] child_matches(dims, p, i, j, c);
    assert(c.cpu == p.cpu + step_cost(dims, p.tensors@[i], p.tensors@[j]));
}

/// Leg conservation: the XOR of the live tensors is invariant under a step,
/// so it always equals the XOR of the root's tensors.
pub proof fn lemma_child_xor_invariant(dims: Seq<u64>, p: TensorNetwork, c: TensorNetwork)
    requires
        is_child(dims, p, c),
    ensures
        xor_all(c.tensors@) == xor_all(p.tensors@),
{
    let (i, j) = choose|i: int, j: int|
        step_ok(dims, p, i, j) && #[trigger] child_matches(dims, p, i, j, c);
    let s = p.tensors@;
    let ti = s[i];
    let tj = s[j];
    let s1 = s.remove(j);
    let s2 = s1.remove(i);
    assert(s1[i] == s[i]);
    lemma_xor_all_remove(s, j);
    lemma_xor_all_remove(s1, i);
    lemma_xor_all_push(s2, ti ^ tj);
    let x = xor_all(s);
    assert((((x ^ tj) ^ ti) ^ (ti ^ tj)) == x) by (bit_vector);
}

/// Identity monotonicity: along a step the set of contracted legs strictly
/// grows, by exactly the legs the two operands shared.
pub proof fn lemma_child_id_grows(
    dims: Seq<u64>,
    t0: Seq<u64>,
    p: TensorNetwork,
    c: TensorNetwork,
)
    requires
        dims_ok(dims),
        occ_le_two(t0),
        net_wf(dims, t0, p),
        is_child(dims, p, c),
    ensures
        net_wf(dims, t0, c),
        p.id & c.id == p.id,
        pop(c.id) == pop(p.id) + pop(p.id ^ c.id),
        pop(c.id) > pop(p.id),
        c.id != p.id,
        c.parent == p.id,
        c.cpu >= p.cpu,
        c.tensors@.len() + 1 == p.tensors@.len(),
{
    let (i, j) = choose|i: int, j: int|
        step_ok(dims, p, i, j) && #[trigger] child_matches(dims, p, i, j, c);
    lemma_step_preserves_wf(dims, t0, p, i, j, c);
}

} // verus!
