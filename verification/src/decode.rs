//! Decoding the winning identity sequence back into leg labels: entry `k` of
//! the decoded sequence lists the labels contracted by step `k`, read off the
//! bits that differ between successive identities.

use vstd::prelude::*;
use crate::bits::{bit_set, lemma_bit_set_ops, lemma_nonzero_has_bit};

verus! {

/// Labels (from position `k` on) of the set bits of `m`, in increasing bit
/// order.
pub open spec fn labels_of_mask(legs_indices: Seq<i8>, m: u64, k: int) -> Seq<i8>
    decreases legs_indices.len() - k when 0 <= k <= legs_indices.len()
{
    if k >= legs_indices.len() {
        Seq::empty()
    } else {
        let rest = labels_of_mask(legs_indices, m / 2, k + 1);
        if m % 2 == 1 {
            seq![legs_indices[k]] + rest
        } else {
            rest
        }
    }
}

pub proof fn lemma_labels_of_zero(legs_indices: Seq<i8>, k: int)
    requires
        0 <= k <= legs_indices.len(),
    ensures
        labels_of_mask(legs_indices, 0, k) == Seq::<i8>::empty(),
    decreases legs_indices.len() - k,
{
    if k < legs_indices.len() {
        lemma_labels_of_zero(legs_indices, k + 1);
    }
}

/// Everything decoded from position `k` on is a label at position `k` or
/// later.
pub proof fn lemma_labels_of_mask_range(legs_indices: Seq<i8>, m: u64, k: int, x: i8)
    requires
        0 <= k <= legs_indices.len(),
        labels_of_mask(legs_indices, m, k).contains(x),
    ensures
        exists|q: int| k <= q < legs_indices.len() && legs_indices[q] == x,
    decreases legs_indices.len() - k,
{
    if k < legs_indices.len() {
        let rest = labels_of_mask(legs_indices, m / 2, k + 1);
        if m % 2 == 1 {
            if x == legs_indices[k] {
            } else {
                assert(rest.contains(x)) by {
                    let whole = seq![legs_indices[k]] + rest;
                    let q = choose|q: int| 0 <= q < whole.len() && whole[q] == x;
                    assert(whole[q] == rest[q - 1]);
                }
                lemma_labels_of_mask_range(legs_indices, m / 2, k + 1, x);
            }
        } else {
            lemma_labels_of_mask_range(legs_indices, m / 2, k + 1, x);
        }
    }
}

/// With pairwise-distinct labels, the decoded list holds the label at
/// position `j` exactly when bit `j - k` of the mask is set.
pub proof fn lemma_labels_of_mask_mem(legs_indices: Seq<i8>, m: u64, k: int, j: int)
    requires
        legs_indices.no_duplicates(),
        legs_indices.len() <= 64,
        0 <= k <= j < legs_indices.len(),
    ensures
        labels_of_mask(legs_indices, m, k).contains(legs_indices[j]) <==> bit_set(
            m,
            (j - k) as u64,
        ),
    decreases legs_indices.len() - k,
{
    let rest = labels_of_mask(legs_indices, m / 2, k + 1);
    let whole = labels_of_mask(legs_indices, m, k);
    assert(((m >> 0u64) & 1 == 1) == (m % 2 == 1)) by (bit_vector);
    if k == j {
        assert(bit_set(m, 0) == (m % 2 == 1));
        if m % 2 == 1 {
            assert((seq![legs_indices[k]] + rest)[0] == legs_indices[k]);
            assert(whole.contains(legs_indices[j]));
        } else {
            if whole.contains(legs_indices[j]) {
                lemma_labels_of_mask_range(legs_indices, m / 2, k + 1, legs_indices[j]);
                let q = choose|q: int|
                    k + 1 <= q < legs_indices.len() && legs_indices[q] == legs_indices[j];
                assert(false);
            }
        }
    } else {
        lemma_labels_of_mask_mem(legs_indices, m / 2, k + 1, j);
        let d = (j - k) as u64;
        assert((m >> d) & 1 == ((m / 2) >> ((d - 1) as u64)) & 1) by (bit_vector)
            requires
                0 < d,
                d < 64,
        ;
        assert((d - 1) as u64 == (j - k - 1) as u64);
        assert(bit_set(m, (j - k) as u64) == bit_set(m / 2, (j - k - 1) as u64));
        if m % 2 == 1 {
            let head = seq![legs_indices[k]];
            assert(legs_indices[k] != legs_indices[j]);
            if rest.contains(legs_indices[j]) {
                let q = choose|q: int| 0 <= q < rest.len() && rest[q] == legs_indices[j];
                assert((head + rest)[q + 1] == rest[q]);
                assert(whole.contains(legs_indices[j]));
            }
            if whole.contains(legs_indices[j]) {
                let q = choose|q: int| 0 <= q < whole.len() && whole[q] == legs_indices[j];
                assert(q != 0);
                assert(whole[q] == rest[q - 1]);
                assert(rest.contains(legs_indices[j]));
            }
        }
    }
}

/// Along a growing identity chain, the decoded labels of a step are exactly
/// the legs present in the later identity and absent from the earlier one.
pub proof fn lemma_decoded_step_labels(a: u64, b: u64, c: u64)
    requires
        a & b == a,
    ensures
        bit_set(a ^ b, c) <==> (bit_set(b, c) && !bit_set(a, c)),
{
    lemma_bit_set_ops(a, b, c);
    if c < 64 {
        assert(((a & b) >> c) & 1 == (a >> c) & 1) by (bit_vector)
            requires
                a & b == a,
        ;
    }
}

/// Decode each step of an identity sequence into the labels it contracted:
/// entry `k` lists the labels of the bits that differ between identities `k`
/// and `k + 1`, in increasing bit order.
pub fn sequence_from_repr(legs_indices: &Vec<i8>, sequence_repr: Vec<u64>) -> (r: Vec<Vec<i8>>)
    requires
        legs_indices@.len() <= 64,
        forall|i: int, b: u64|
            0 <= i < sequence_repr@.len() && #[trigger] bit_set(sequence_repr@[i], b) ==> b
                < legs_indices@.len(),
    ensures
        r@.len() == (if sequence_repr@.len() >= 1 {
            sequence_repr@.len() - 1
        } else {
            0int
        }),
        forall|i: int|
            1 <= i < sequence_repr@.len() ==> (#[trigger] r@[i - 1])@ == labels_of_mask(
                legs_indices@,
                sequence_repr@[i - 1] ^ sequence_repr@[i],
                0,
            ),
{
    let ghost li = legs_indices@;
    let ghost reprs = sequence_repr@;
    let mut sequence: Vec<Vec<i8>> = Vec::new();
    if sequence_repr.len() == 0 {
        return sequence;
    }
    let mut i: usize = 1;
    while i < sequence_repr.len()
        invariant
            li == legs_indices@,
            reprs == sequence_repr@,
            li.len() <= 64,
            forall|q: int, b: u64|
                0 <= q < reprs.len() && #[trigger] bit_set(reprs[q], b) ==> b < li.len(),
            1 <= i <= reprs.len(),
            sequence@.len() == i - 1,
            forall|q: int|
                1 <= q < i ==> (#[trigger] sequence@[q - 1])@ == labels_of_mask(
                    li,
                    reprs[q - 1] ^ reprs[q],
                    0,
                ),
        decreases sequence_repr.len() - i,
    {
        let mut legs: Vec<i8> = Vec::new();
        let xor_mask = sequence_repr[i - 1] ^ sequence_repr[i];
        let mut legs_repr: u64 = xor_mask;
        let mut j: usize = 0;
        proof {
            assert(Seq::<i8>::empty() + labels_of_mask(li, xor_mask, 0) =~= labels_of_mask(
                li,
                xor_mask,
                0,
            ));
            assert forall|b: u64| #[trigger] bit_set(legs_repr, b) implies b + j < li.len() by {
                lemma_bit_set_ops(reprs[i - 1], reprs[i as int], b);
            }
        }
        while legs_repr != 0
            invariant
                li == legs_indices@,
                li.len() <= 64,
                0 <= j <= li.len(),
                forall|b: u64| #[trigger] bit_set(legs_repr, b) ==> b + j < li.len(),
                labels_of_mask(li, xor_mask, 0) == legs@ + labels_of_mask(li, legs_repr, j as int),
            decreases legs_repr,
        {
            proof {
                lemma_nonzero_has_bit(legs_repr);
                let b = choose|b: u64| bit_set(legs_repr, b);
                assert(b + j < li.len());
                assert(j < li.len());
            }
            if legs_repr % 2 != 0 {
                legs.push(legs_indices[j]);
                proof {
                    let ghost old_legs = legs@.drop_last();
                    assert(labels_of_mask(li, legs_repr, j as int) == seq![li[j as int]]
                        + labels_of_mask(li, legs_repr / 2, j + 1));
                    assert(legs@ + labels_of_mask(li, legs_repr / 2, j + 1) =~= old_legs + (seq![
                        li[j as int],
                    ] + labels_of_mask(li, legs_repr / 2, j + 1)));
                }
            } else {
                proof {
                    assert(labels_of_mask(li, legs_repr, j as int) == labels_of_mask(
                        li,
                        legs_repr / 2,
                        j + 1,
                    ));
                }
            }
            proof {
                assert forall|b: u64| #[trigger] bit_set(legs_repr / 2, b) implies b + (j + 1)
                    < li.len() by {
                    assert(((legs_repr / 2) >> 63u64) & 1 == 0) by (bit_vector);
                    assert(b < 63);
                    assert(((legs_repr / 2) >> b) & 1 == (legs_repr >> ((b + 1) as u64)) & 1)
                        by (bit_vector)
                        requires
                            b < 63,
                    ;
                    assert(bit_set(legs_repr, (b + 1) as u64));
                }
                assert(legs_repr >> 1u64 == legs_repr / 2) by (bit_vector);
                assert(legs_repr / 2 < legs_repr) by (bit_vector)
                    requires
                        legs_repr != 0,
                ;
            }
            legs_repr = legs_repr >> 1;
            j = j + 1;
        }
        proof {
            lemma_labels_of_zero(li, j as int);
            assert(legs@ + labels_of_mask(li, legs_repr, j as int) =~= legs@);
        }
        sequence.push(legs);
        i = i + 1;
    }
    sequence
}

} // verus!
