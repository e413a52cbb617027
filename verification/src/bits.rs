//! Bitmask arithmetic underlying the search: population count, the product of
//! leg dimensions selected by a mask, and the XOR of a list of masks.
//!
//! A tensor is a `u64` whose bit `i` is set iff the tensor carries the leg
//! assigned to bit position `i`; `dims[i]` is that leg's dimension.

use vstd::prelude::*;
use vstd::arithmetic::power2::*;

verus! {

/// Number of set bits of `m`.
pub open spec fn pop(m: u64) -> nat
    decreases m,
{
    if m == 0 {
        0
    } else {
        (m % 2) as nat + pop(m / 2)
    }
}

/// Well-formed dimension table: at most one bit position per word bit, every
/// dimension at least 2.
pub open spec fn dims_ok(dims: Seq<u64>) -> bool {
    &&& dims.len() <= 64
    &&& forall|i: int| 0 <= i < dims.len() ==> dims[i] >= 2
}

/// Product of `dims[k + i]` over the set bits `i` of `m`, for bit positions
/// that fall inside the table; the empty product is 1.
pub open spec fn size_from(dims: Seq<u64>, m: u64, k: int) -> nat
    decreases dims.len() - k when 0 <= k <= dims.len()
{
    if k >= dims.len() {
        1
    } else {
        let rest = size_from(dims, m / 2, k + 1);
        if m % 2 == 1 {
            dims[k] as nat * rest
        } else {
            rest
        }
    }
}

/// Size of the tensor with bitmask `m`: the product of the dimensions of the
/// legs it carries.
pub open spec fn mask_size(dims: Seq<u64>, m: u64) -> nat {
    size_from(dims, m, 0)
}

/// Sum of the sizes of a list of tensors.
pub open spec fn sum_sizes(dims: Seq<u64>, ts: Seq<u64>) -> nat
    decreases ts.len(),
{
    if ts.len() == 0 {
        0
    } else {
        mask_size(dims, ts[0]) + sum_sizes(dims, ts.drop_first())
    }
}

/// XOR of a list of masks. Contracting two tensors replaces them by their
/// XOR, so this quantity is invariant along any contraction chain.
pub open spec fn xor_all(ts: Seq<u64>) -> u64
    decreases ts.len(),
{
    if ts.len() == 0 {
        0u64
    } else {
        ts[0] ^ xor_all(ts.drop_first())
    }
}

/// OR of a list of masks: every leg present somewhere in the network.
pub open spec fn or_all(ts: Seq<u64>) -> u64
    decreases ts.len(),
{
    if ts.len() == 0 {
        0u64
    } else {
        ts[0] | or_all(ts.drop_first())
    }
}

/// Bit `b` of `m` is set.
pub open spec fn bit_set(m: u64, b: u64) -> bool {
    b < 64 && (m >> b) & 1 == 1
}

/// Number of masks in `ts` that carry bit `b`.
pub open spec fn occ(ts: Seq<u64>, b: u64) -> nat
    decreases ts.len(),
{
    if ts.len() == 0 {
        0
    } else {
        (if bit_set(ts[0], b) {
            1nat
        } else {
            0nat
        }) + occ(ts.drop_first(), b)
    }
}

/// The legs contracted when the whole network is reduced to one tensor: those
/// carried by exactly two tensors. Legs carried once stay open and survive in
/// the XOR; legs carried twice cancel there but remain in the OR.
pub open spec fn closed_of(ts: Seq<u64>) -> u64 {
    or_all(ts) ^ xor_all(ts)
}

pub proof fn lemma_size_from_zero_mask(dims: Seq<u64>, k: int)
    requires
        0 <= k <= dims.len(),
    ensures
        size_from(dims, 0, k) == 1,
    decreases dims.len() - k,
{
    if k < dims.len() {
        lemma_size_from_zero_mask(dims, k + 1);
    }
}

pub proof fn lemma_size_from_pos(dims: Seq<u64>, m: u64, k: int)
    requires
        0 <= k <= dims.len(),
        forall|i: int| 0 <= i < dims.len() ==> dims[i] >= 1,
    ensures
        size_from(dims, m, k) >= 1,
    decreases dims.len() - k,
{
    if k < dims.len() {
        lemma_size_from_pos(dims, m / 2, k + 1);
        if m % 2 == 1 {
            assert(dims[k] as nat * size_from(dims, m / 2, k + 1) >= 1) by (nonlinear_arith)
                requires
                    dims[k] >= 1,
                    size_from(dims, m / 2, k + 1) >= 1,
            ;
        }
    }
}

/// The size of the union of two disjoint masks is the product of their sizes.
pub proof fn lemma_size_from_or_disjoint(dims: Seq<u64>, a: u64, b: u64, k: int)
    requires
        0 <= k <= dims.len(),
        a & b == 0,
    ensures
        size_from(dims, a | b, k) == size_from(dims, a, k) * size_from(dims, b, k),
    decreases dims.len() - k,
{
    if k >= dims.len() {
        assert(size_from(dims, a | b, k) == 1);
        assert(size_from(dims, a, k) == 1);
        assert(size_from(dims, b, k) == 1);
        assert(size_from(dims, a, k) * size_from(dims, b, k) == 1) by (nonlinear_arith)
            requires
                size_from(dims, a, k) == 1,
                size_from(dims, b, k) == 1,
        ;
    } else {
        assert((a | b) / 2 == (a / 2) | (b / 2) && (a / 2) & (b / 2) == 0 && (a | b) % 2 == a % 2
            + b % 2) by (bit_vector)
            requires
                a & b == 0,
        ;
        lemma_size_from_or_disjoint(dims, a / 2, b / 2, k + 1);
        let ra = size_from(dims, a / 2, k + 1);
        let rb = size_from(dims, b / 2, k + 1);
        let d = dims[k] as nat;
        assert(size_from(dims, (a | b) / 2, k + 1) == ra * rb);
        if a % 2 == 1 {
            assert(b % 2 == 0);
            assert(size_from(dims, a | b, k) == d * (ra * rb));
            assert(size_from(dims, a, k) == d * ra);
            assert(size_from(dims, b, k) == rb);
            assert(d * (ra * rb) == (d * ra) * rb) by (nonlinear_arith);
        } else if b % 2 == 1 {
            assert(size_from(dims, a | b, k) == d * (ra * rb));
            assert(size_from(dims, a, k) == ra);
            assert(size_from(dims, b, k) == d * rb);
            assert(d * (ra * rb) == ra * (d * rb)) by (nonlinear_arith);
        } else {
            assert(size_from(dims, a | b, k) == ra * rb);
        }
    }
}

pub proof fn lemma_mask_size_or_disjoint(dims: Seq<u64>, a: u64, b: u64)
    requires
        a & b == 0,
    ensures
        mask_size(dims, a | b) == mask_size(dims, a) * mask_size(dims, b),
{
    lemma_size_from_or_disjoint(dims, a, b, 0);
}

/// A submask never has a larger size than its supermask (dimensions are >= 1).
pub proof fn lemma_mask_size_submask_le(dims: Seq<u64>, sub: u64, sup: u64)
    requires
        sub & sup == sub,
        forall|i: int| 0 <= i < dims.len() ==> dims[i] >= 1,
    ensures
        mask_size(dims, sub) <= mask_size(dims, sup),
{
    let rest = sup ^ sub;
    assert(sub & (sup ^ sub) == 0 && (sub | (sup ^ sub)) == sup) by (bit_vector)
        requires
            sub & sup == sub,
    ;
    lemma_mask_size_or_disjoint(dims, sub, rest);
    lemma_size_from_pos(dims, rest, 0);
    assert(mask_size(dims, sub) * mask_size(dims, rest) >= mask_size(dims, sub) * 1)
        by (nonlinear_arith)
        requires
            mask_size(dims, rest) >= 1,
    ;
}

pub proof fn lemma_pop_or_disjoint(a: u64, b: u64)
    requires
        a & b == 0,
    ensures
        pop(a | b) == pop(a) + pop(b),
    decreases (a | b),
{
    if a == 0 {
        assert(a | b == b) by (bit_vector)
            requires
                a == 0,
        ;
    } else if b == 0 {
        assert(a | b == a) by (bit_vector)
            requires
                b == 0,
        ;
    } else {
        assert((a | b) / 2 == (a / 2) | (b / 2) && (a / 2) & (b / 2) == 0 && (a | b) % 2 == a % 2
            + b % 2 && (a | b) / 2 < (a | b)) by (bit_vector)
            requires
                a & b == 0,
                a != 0,
        ;
        lemma_pop_or_disjoint(a / 2, b / 2);
    }
}

pub proof fn lemma_pop_pos(m: u64)
    requires
        m != 0,
    ensures
        pop(m) >= 1,
    decreases m,
{
    if m % 2 == 0 {
        assert(m / 2 != 0) by (bit_vector)
            requires
                m != 0,
                m % 2 == 0,
        ;
        lemma_pop_pos(m / 2);
    }
}

/// A mask below `pow2(n)` has at most `n` set bits.
pub proof fn lemma_pop_bound(m: u64, n: nat)
    requires
        m < pow2(n),
    ensures
        pop(m) <= n,
    decreases n,
{
    if m == 0 {
    } else {
        if n == 0 {
            assert(pow2(0) == 1) by {
                lemma2_to64();
            }
        } else {
            assert(pow2(n) == 2 * pow2((n - 1) as nat)) by {
                lemma_pow2_unfold(n);
            }
            lemma_pop_bound(m / 2, (n - 1) as nat);
        }
    }
}

/// Two submasks of equal popcount under the same supermask: if one contains
/// the other they are equal.
pub proof fn lemma_pop_submask_eq(a: u64, b: u64)
    requires
        a & b == a,
        pop(a) == pop(b),
    ensures
        a == b,
{
    let rest = b ^ a;
    assert(a & (b ^ a) == 0 && (a | (b ^ a)) == b) by (bit_vector)
        requires
            a & b == a,
    ;
    lemma_pop_or_disjoint(a, rest);
    if rest != 0 {
        lemma_pop_pos(rest);
    }
    assert(rest == 0);
    assert(a == b) by (bit_vector)
        requires
            b ^ a == 0,
    ;
}

/// Commutativity, associativity and units of the word operations.
pub proof fn lemma_word_basics()
    by (bit_vector)
    ensures
        forall|a: u64| #[trigger] (a ^ 0u64) == a,
        forall|a: u64| #[trigger] (a ^ a) == 0u64,
        forall|a: u64| #[trigger] (a | 0u64) == a,
        forall|a: u64| #[trigger] (a & 0u64) == 0u64,
        forall|a: u64, b: u64| #[trigger] (a ^ b) == (b ^ a),
        forall|a: u64, b: u64| #[trigger] (a | b) == (b | a),
        forall|a: u64, b: u64, c: u64| #[trigger] ((a ^ b) ^ c) == (a ^ (b ^ c)),
        forall|a: u64, b: u64, c: u64| #[trigger] ((a | b) | c) == (a | (b | c)),
{
}

/// How the word operations act on a single bit position.
pub proof fn lemma_bit_ops_shift(x: u64, y: u64, b: u64)
    by (bit_vector)
    requires
        b < 64,
    ensures
        ((x & y) >> b) & 1 == 1 <==> ((x >> b) & 1 == 1 && (y >> b) & 1 == 1),
        ((x | y) >> b) & 1 == 1 <==> ((x >> b) & 1 == 1 || (y >> b) & 1 == 1),
        ((x ^ y) >> b) & 1 == 1 <==> (((x >> b) & 1 == 1) != ((y >> b) & 1 == 1)),
        (0u64 >> b) & 1 == 0,
{
}

pub proof fn lemma_bit_set_ops(x: u64, y: u64, b: u64)
    ensures
        bit_set(x & y, b) <==> (bit_set(x, b) && bit_set(y, b)),
        bit_set(x | y, b) <==> (bit_set(x, b) || bit_set(y, b)),
        bit_set(x ^ y, b) <==> (bit_set(x, b) != bit_set(y, b)),
        !bit_set(0u64, b),
{
    if b < 64 {
        lemma_bit_ops_shift(x, y, b);
    }
}

/// A nonzero word carries at least one set bit.
pub proof fn lemma_nonzero_has_bit(m: u64)
    requires
        m != 0,
    ensures
        exists|b: u64| #[trigger] bit_set(m, b),
    decreases m,
{
    if m % 2 == 1 {
        assert((m >> 0u64) & 1 == 1) by (bit_vector)
            requires
                m % 2 == 1,
        ;
        assert(bit_set(m, 0));
    } else {
        assert(m / 2 != 0 && ((m / 2) >> 63u64) & 1 == 0) by (bit_vector)
            requires
                m != 0,
                m % 2 == 0,
        ;
        lemma_nonzero_has_bit(m / 2);
        let b = choose|b: u64| #[trigger] bit_set(m / 2, b);
        assert(b < 63);
        assert((m >> ((b + 1) as u64)) & 1 == ((m / 2) >> b) & 1) by (bit_vector)
            requires
                b < 63,
        ;
        assert(bit_set(m, (b + 1) as u64));
    }
}

/// If every bit of `x` is a bit of `y`, then `x` is a submask of `y`.
pub proof fn lemma_bits_to_submask(x: u64, y: u64)
    requires
        forall|b: u64| bit_set(x, b) ==> bit_set(y, b),
    ensures
        x & y == x,
    decreases x,
{
    if x == 0 {
        assert(0u64 & y == 0) by (bit_vector);
    } else {
        assert forall|b: u64| #[trigger] bit_set(x / 2, b) implies bit_set(y / 2, b) by {
            assert(((x / 2) >> 63u64) & 1 == 0) by (bit_vector);
            assert(b < 63);
            assert((x >> ((b + 1) as u64)) & 1 == ((x / 2) >> b) & 1 && (y >> ((b + 1) as u64)) & 1 == ((y / 2) >> b)
                & 1) by (bit_vector)
                requires
                    b < 63,
            ;
            assert(bit_set(x, (b + 1) as u64));
        }
        assert(x / 2 < x) by (bit_vector)
            requires
                x != 0,
        ;
        lemma_bits_to_submask(x / 2, y / 2);
        if x % 2 == 1 {
            assert((x >> 0u64) & 1 == 1) by (bit_vector)
                requires
                    x % 2 == 1,
            ;
            assert(bit_set(x, 0));
            assert(bit_set(y, 0));
            assert(y % 2 == 1) by (bit_vector)
                requires
                    (y >> 0u64) & 1 == 1,
            ;
        }
        assert(x & y == x) by (bit_vector)
            requires
                (x / 2) & (y / 2) == x / 2,
                x % 2 == 1 ==> y % 2 == 1,
        ;
    }
}

/// If no bit is shared, the masks are disjoint.
pub proof fn lemma_bits_to_disjoint(x: u64, y: u64)
    requires
        forall|b: u64| !(bit_set(x, b) && bit_set(y, b)),
    ensures
        x & y == 0,
    decreases x,
{
    if x == 0 {
        assert(0u64 & y == 0) by (bit_vector);
    } else {
        assert forall|b: u64| !(#[trigger] bit_set(x / 2, b) && bit_set(y / 2, b)) by {
            if bit_set(x / 2, b) && bit_set(y / 2, b) {
                assert(((x / 2) >> 63u64) & 1 == 0) by (bit_vector);
                assert(b < 63);
                assert((x >> ((b + 1) as u64)) & 1 == ((x / 2) >> b) & 1 && (y >> ((b + 1) as u64)) & 1 == ((y / 2)
                    >> b) & 1) by (bit_vector)
                    requires
                        b < 63,
                ;
                assert(bit_set(x, (b + 1) as u64) && bit_set(y, (b + 1) as u64));
            }
        }
        assert(x / 2 < x) by (bit_vector)
            requires
                x != 0,
        ;
        lemma_bits_to_disjoint(x / 2, y / 2);
        if x % 2 == 1 && y % 2 == 1 {
            assert((x >> 0u64) & 1 == 1 && (y >> 0u64) & 1 == 1) by (bit_vector)
                requires
                    x % 2 == 1,
                    y % 2 == 1,
            ;
            assert(bit_set(x, 0) && bit_set(y, 0));
        }
        assert(x & y == 0) by (bit_vector)
            requires
                (x / 2) & (y / 2) == 0,
                !(x % 2 == 1 && y % 2 == 1),
        ;
    }
}

pub proof fn lemma_xor_all_push(ts: Seq<u64>, x: u64)
    ensures
        xor_all(ts.push(x)) == xor_all(ts) ^ x,
    decreases ts.len(),
{
    lemma_word_basics();
    if ts.len() == 0 {
        assert(ts.push(x)[0] == x);
        assert(ts.push(x).drop_first() =~= Seq::<u64>::empty());
        assert(xor_all(ts.push(x).drop_first()) == 0);
        assert(xor_all(ts.push(x)) == x ^ 0);
        assert(x ^ 0 == x);
        assert(xor_all(ts) == 0);
        assert(xor_all(ts) ^ x == 0 ^ x);
        assert(0 ^ x == x ^ 0);
    } else {
        assert(ts.push(x)[0] == ts[0]);
        assert(ts.push(x).drop_first() =~= ts.drop_first().push(x));
        lemma_xor_all_push(ts.drop_first(), x);
        assert(xor_all(ts.push(x)) == ts[0] ^ xor_all(ts.drop_first().push(x)));
        assert(xor_all(ts.push(x)) == ts[0] ^ (xor_all(ts.drop_first()) ^ x));
        assert(ts[0] ^ (xor_all(ts.drop_first()) ^ x) == (ts[0] ^ xor_all(ts.drop_first())) ^ x);
        assert(xor_all(ts) == ts[0] ^ xor_all(ts.drop_first()));
    }
}

pub proof fn lemma_xor_all_remove(ts: Seq<u64>, i: int)
    requires
        0 <= i < ts.len(),
    ensures
        xor_all(ts.remove(i)) == xor_all(ts) ^ ts[i],
    decreases ts.len(),
{
    lemma_word_basics();
    if i == 0 {
        assert(ts.remove(0) =~= ts.drop_first());
    } else {
        assert(ts.remove(i).drop_first() =~= ts.drop_first().remove(i - 1));
        lemma_xor_all_remove(ts.drop_first(), i - 1);
    }
}

pub proof fn lemma_or_all_push(ts: Seq<u64>, x: u64)
    ensures
        or_all(ts.push(x)) == or_all(ts) | x,
    decreases ts.len(),
{
    lemma_word_basics();
    if ts.len() == 0 {
        assert(ts.push(x)[0] == x);
        assert(ts.push(x).drop_first() =~= Seq::<u64>::empty());
        assert(or_all(ts.push(x).drop_first()) == 0);
        assert(or_all(ts.push(x)) == x | 0);
        assert(x | 0 == 0 | x);
    } else {
        assert(ts.push(x)[0] == ts[0]);
        assert(ts.push(x).drop_first() =~= ts.drop_first().push(x));
        lemma_or_all_push(ts.drop_first(), x);
        assert(or_all(ts.push(x)) == ts[0] | (or_all(ts.drop_first()) | x));
        assert(ts[0] | (or_all(ts.drop_first()) | x) == (ts[0] | or_all(ts.drop_first())) | x);
        assert(or_all(ts) == ts[0] | or_all(ts.drop_first()));
    }
}

pub proof fn lemma_occ_push(ts: Seq<u64>, x: u64, b: u64)
    ensures
        occ(ts.push(x), b) == occ(ts, b) + (if bit_set(x, b) {
            1nat
        } else {
            0nat
        }),
    decreases ts.len(),
{
    if ts.len() == 0 {
        assert(ts.push(x)[0] == x);
        assert(ts.push(x).drop_first() =~= Seq::<u64>::empty());
        assert(occ(ts.push(x).drop_first(), b) == 0);
        assert(occ(ts, b) == 0);
    } else {
        assert(ts.push(x)[0] == ts[0]);
        assert(ts.push(x).drop_first() =~= ts.drop_first().push(x));
        lemma_occ_push(ts.drop_first(), x, b);
        assert(occ(ts.push(x), b) == (if bit_set(ts[0], b) {
            1nat
        } else {
            0nat
        }) + occ(ts.drop_first().push(x), b));
        assert(occ(ts, b) == (if bit_set(ts[0], b) {
            1nat
        } else {
            0nat
        }) + occ(ts.drop_first(), b));
    }
}

pub proof fn lemma_occ_remove(ts: Seq<u64>, i: int, b: u64)
    requires
        0 <= i < ts.len(),
    ensures
        occ(ts, b) == occ(ts.remove(i), b) + (if bit_set(ts[i], b) {
            1nat
        } else {
            0nat
        }),
    decreases ts.len(),
{
    if i == 0 {
        assert(ts.remove(0) =~= ts.drop_first());
    } else {
        assert(ts.remove(i).drop_first() =~= ts.drop_first().remove(i - 1));
        lemma_occ_remove(ts.drop_first(), i - 1, b);
    }
}

/// One tensor carrying bit `b` makes `occ` at least 1.
pub proof fn lemma_occ_one(ts: Seq<u64>, i: int, b: u64)
    requires
        0 <= i < ts.len(),
        bit_set(ts[i], b),
    ensures
        occ(ts, b) >= 1,
    decreases ts.len(),
{
    if i > 0 {
        lemma_occ_one(ts.drop_first(), i - 1, b);
    }
}

/// Two distinct tensors carrying bit `b` make `occ` at least 2.
pub proof fn lemma_occ_two(ts: Seq<u64>, i: int, j: int, b: u64)
    requires
        0 <= i < j < ts.len(),
        bit_set(ts[i], b),
        bit_set(ts[j], b),
    ensures
        occ(ts, b) >= 2,
    decreases ts.len(),
{
    if i == 0 {
        lemma_occ_one(ts.drop_first(), j - 1, b);
    } else {
        lemma_occ_two(ts.drop_first(), i - 1, j - 1, b);
    }
}

pub proof fn lemma_or_all_bit(ts: Seq<u64>, b: u64)
    ensures
        bit_set(or_all(ts), b) <==> occ(ts, b) >= 1,
    decreases ts.len(),
{
    lemma_bit_set_ops(0, 0, b);
    if ts.len() > 0 {
        lemma_bit_set_ops(ts[0], or_all(ts.drop_first()), b);
        lemma_or_all_bit(ts.drop_first(), b);
    }
}

pub proof fn lemma_xor_all_bit(ts: Seq<u64>, b: u64)
    ensures
        bit_set(xor_all(ts), b) <==> occ(ts, b) % 2 == 1,
    decreases ts.len(),
{
    lemma_bit_set_ops(0, 0, b);
    if ts.len() > 0 {
        lemma_bit_set_ops(ts[0], xor_all(ts.drop_first()), b);
        lemma_xor_all_bit(ts.drop_first(), b);
    }
}

/// When no leg is carried more than twice, the closed mask holds exactly the
/// legs carried twice.
pub proof fn lemma_closed_bit(ts: Seq<u64>, b: u64)
    requires
        occ(ts, b) <= 2,
    ensures
        bit_set(closed_of(ts), b) <==> occ(ts, b) == 2,
{
    lemma_or_all_bit(ts, b);
    lemma_xor_all_bit(ts, b);
    lemma_bit_set_ops(or_all(ts), xor_all(ts), b);
}

pub proof fn lemma_sum_sizes_push(dims: Seq<u64>, ts: Seq<u64>, x: u64)
    ensures
        sum_sizes(dims, ts.push(x)) == sum_sizes(dims, ts) + mask_size(dims, x),
    decreases ts.len(),
{
    if ts.len() == 0 {
        assert(ts.push(x)[0] == x);
        assert(ts.push(x).drop_first() =~= Seq::<u64>::empty());
        assert(sum_sizes(dims, ts.push(x).drop_first()) == 0);
        assert(sum_sizes(dims, ts) == 0);
    } else {
        assert(ts.push(x)[0] == ts[0]);
        assert(ts.push(x).drop_first() =~= ts.drop_first().push(x));
        lemma_sum_sizes_push(dims, ts.drop_first(), x);
        assert(sum_sizes(dims, ts.push(x)) == mask_size(dims, ts[0]) + sum_sizes(dims,
            ts.drop_first().push(x)));
        assert(sum_sizes(dims, ts) == mask_size(dims, ts[0]) + sum_sizes(dims, ts.drop_first()));
    }
}

/// OR of the masks of a list, left to right.
pub fn or_of(ts: &Vec<u64>) -> (m: u64)
    ensures
        m == or_all(ts@),
{
    let mut m: u64 = 0;
    let mut k: usize = 0;
    proof {
        lemma_word_basics();
        assert(ts@.take(0) =~= Seq::<u64>::empty());
    }
    while k < ts.len()
        invariant
            k <= ts.len(),
            m == or_all(ts@.take(k as int)),
        decreases ts.len() - k,
    {
        proof {
            lemma_word_basics();
            assert(ts@.take(k + 1) =~= ts@.take(k as int).push(ts@[k as int]));
            lemma_or_all_push(ts@.take(k as int), ts@[k as int]);
        }
        m = m | ts[k];
        k = k + 1;
    }
    proof {
        assert(ts@.take(ts@.len() as int) =~= ts@);
    }
    m
}

/// XOR of the masks of a list, left to right.
pub fn xor_of(ts: &Vec<u64>) -> (m: u64)
    ensures
        m == xor_all(ts@),
{
    let mut m: u64 = 0;
    let mut k: usize = 0;
    proof {
        lemma_word_basics();
        assert(ts@.take(0) =~= Seq::<u64>::empty());
    }
    while k < ts.len()
        invariant
            k <= ts.len(),
            m == xor_all(ts@.take(k as int)),
        decreases ts.len() - k,
    {
        proof {
            lemma_word_basics();
            assert(ts@.take(k + 1) =~= ts@.take(k as int).push(ts@[k as int]));
            lemma_xor_all_push(ts@.take(k as int), ts@[k as int]);
        }
        m = m ^ ts[k];
        k = k + 1;
    }
    proof {
        assert(ts@.take(ts@.len() as int) =~= ts@);
    }
    m
}


/// A submask has no larger popcount than its supermask.
pub proof fn lemma_pop_submask_le(a: u64, b: u64)
    requires
        a & b == a,
    ensures
        pop(a) <= pop(b),
{
    let rest = b ^ a;
    assert(a & (b ^ a) == 0 && (a | (b ^ a)) == b) by (bit_vector)
        requires
            a & b == a,
    ;
    lemma_pop_or_disjoint(a, rest);
}

/// A submask is numerically no larger than its supermask.
pub proof fn lemma_submask_le(a: u64, b: u64)
    requires
        a & b == a,
    ensures
        a <= b,
{
    assert(a <= b) by (bit_vector)
        requires
            a & b == a,
    ;
}

/// Population count of a word, by shifting through its bits.
pub fn popcount(m: u64) -> (c: u32)
    ensures
        c == pop(m),
{
    proof {
        assert(m < pow2(64)) by {
            lemma2_to64_rest();
        }
        lemma_pop_bound(m, 64);
    }
    let mut t: u64 = m;
    let mut c: u32 = 0;
    while t != 0
        invariant
            c + pop(t) == pop(m),
            pop(m) <= 64,
        decreases t,
    {
        proof {
            lemma_pop_pos(t);
        }
        if t % 2 == 1 {
            c = c + 1;
        }
        assert(t / 2 < t) by (bit_vector)
            requires
                t != 0,
        ;
        t = t / 2;
    }
    c
}

} // verus!
