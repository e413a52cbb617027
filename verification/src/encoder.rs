//! The bit encoder: validates the abstract tensors and derives the canonical
//! bit representation. Every distinct leg label gets a bit position; labels
//! contracted inside the network (carried by two tensors) occupy the low
//! bits, open labels (carried by one) the high bits; within each group the
//! positions follow the absolute label value.

use vstd::prelude::*;
use crate::bits::{
    bit_set, dims_ok, lemma_bit_set_ops, lemma_nonzero_has_bit, occ,
};
use crate::network::occ_le_two;
use crate::connectivity::{closed_under_edges, edge, is_connected, is_connex};

verus! {

/// An input tensor: an ordered list of dimensions and an equally long
/// ordered list of signed leg labels. Positive labels are meant to be
/// contracted, negative ones to stay open; only the number of carriers
/// matters to the encoder.
#[derive(Debug)]
pub struct AbstractTensor {
    pub name: String,
    pub shape: Vec<u64>,
    pub legs: Vec<i8>,
}

/// Why an input is rejected.
#[derive(Debug, PartialEq, Eq)]
pub enum EncodeError {
    /// `shape` and `legs` of the tensor differ in length.
    LengthMismatch { tensor: usize },
    /// A dimension below 2.
    InvalidDimension { tensor: usize, leg: usize },
    /// A tensor carries the same label twice (a trace).
    Trace { tensor: usize },
    /// A label is carried by three or more tensors.
    TripleLeg { label: i8 },
    /// The two carriers of a label disagree on its dimension.
    DimensionMismatch { label: i8 },
    /// More distinct labels than bits in the mask word.
    TooManyLegs,
    /// The network does not hold together (or is empty).
    NotConnected,
}

/// Occurrences of label `l` in one leg list.
pub open spec fn count_in(legs: Seq<i8>, l: i8) -> nat
    decreases legs.len(),
{
    if legs.len() == 0 {
        0
    } else {
        (if legs[0] == l {
            1nat
        } else {
            0nat
        }) + count_in(legs.drop_first(), l)
    }
}

/// Occurrences of label `l` over all tensors.
pub open spec fn label_count(ts: Seq<AbstractTensor>, l: i8) -> nat
    decreases ts.len(),
{
    if ts.len() == 0 {
        0
    } else {
        count_in(ts[0].legs@, l) + label_count(ts.drop_first(), l)
    }
}

pub open spec fn shapes_match(ts: Seq<AbstractTensor>) -> bool {
    forall|t: int| 0 <= t < ts.len() ==> (#[trigger] ts[t]).shape@.len() == ts[t].legs@.len()
}

pub open spec fn dims_valid(ts: Seq<AbstractTensor>) -> bool {
    forall|t: int, q: int|
        0 <= t < ts.len() && 0 <= q < ts[t].shape@.len() ==> (#[trigger] ts[t].shape@[q]) >= 2
}

pub open spec fn no_trace(ts: Seq<AbstractTensor>) -> bool {
    forall|t: int, q1: int, q2: int|
        #![trigger ts[t].legs@[q1], ts[t].legs@[q2]]
        0 <= t < ts.len() && 0 <= q1 < q2 < ts[t].legs@.len() ==> ts[t].legs@[q1]
            != ts[t].legs@[q2]
}

pub open spec fn counts_ok(ts: Seq<AbstractTensor>) -> bool {
    forall|l: i8| #[trigger] label_count(ts, l) <= 2
}

/// Both carriers of a label agree on its dimension.
pub open spec fn dims_agree(ts: Seq<AbstractTensor>) -> bool {
    forall|t1: int, q1: int, t2: int, q2: int|
        #![trigger ts[t1].legs@[q1], ts[t2].legs@[q2]]
        0 <= t1 < ts.len() && 0 <= q1 < ts[t1].legs@.len() && q1 < ts[t1].shape@.len() && 0 <= t2
            < ts.len() && 0 <= q2 < ts[t2].legs@.len() && q2 < ts[t2].shape@.len()
            && ts[t1].legs@[q1] == ts[t2].legs@[q2] ==> ts[t1].shape@[q1] == ts[t2].shape@[q2]
}

/// `s` lists the distinct labels of the input, each once.
pub open spec fn label_listing(ts: Seq<AbstractTensor>, s: Seq<i8>) -> bool {
    &&& s.no_duplicates()
    &&& forall|l: i8| s.contains(l) <==> #[trigger] label_count(ts, l) >= 1
}

/// One row of the leg table: a distinct label, its dimension, and on how
/// many tensors it occurs.
#[derive(Debug, Clone, Copy)]
pub struct LegEntry {
    pub label: i8,
    pub dim: u64,
    pub count: u8,
}

/// What the validation pass establishes of every table row, over the whole
/// input.
pub open spec fn entry_props(ts: Seq<AbstractTensor>, e: LegEntry) -> bool {
    &&& e.count as nat == label_count(ts, e.label)
    &&& 1 <= e.count <= 2
    &&& forall|t: int, q: int|
        #![trigger ts[t].legs@[q]]
        0 <= t < ts.len() && 0 <= q < ts[t].legs@.len() && q < ts[t].shape@.len()
            && ts[t].legs@[q] == e.label ==> ts[t].shape@[q] == e.dim
    &&& exists|t: int, q: int|
        0 <= t < ts.len() && 0 <= q < ts[t].legs@.len() && q < ts[t].shape@.len()
            && ts[t].legs@[q] == e.label && ts[t].shape@[q] == e.dim
}

/// The table holds a row for label `l`.
pub open spec fn tab_has(tab: Seq<LegEntry>, l: i8) -> bool {
    exists|k: int| 0 <= k < tab.len() && (#[trigger] tab[k]).label == l
}

pub open spec fn tab_labels_distinct(tab: Seq<LegEntry>) -> bool {
    forall|k1: int, k2: int|
        #![trigger tab[k1], tab[k2]]
        0 <= k1 < k2 < tab.len() ==> tab[k1].label != tab[k2].label
}

/// Tensors `a` and `b` of the input share a label.
pub open spec fn input_edge(ts: Seq<AbstractTensor>, a: int, b: int) -> bool {
    &&& 0 <= a < ts.len()
    &&& 0 <= b < ts.len()
    &&& a != b
    &&& exists|l: i8|
        count_in(ts[a].legs@, l) >= 1 && #[trigger] count_in(ts[b].legs@, l) >= 1
}

pub open spec fn closed_under_input_edges(ts: Seq<AbstractTensor>, s: Set<int>) -> bool {
    forall|a: int, b: int| s.contains(a) && #[trigger] input_edge(ts, a, b) ==> s.contains(b)
}

/// The input network holds together: every label-sharing-closed vertex set
/// containing the first tensor holds all of them.
pub open spec fn input_connected(ts: Seq<AbstractTensor>) -> bool {
    &&& ts.len() >= 1
    &&& forall|s: Set<int>|
        s.contains(0) && #[trigger] closed_under_input_edges(ts, s) ==> forall|k: int|
            0 <= k < ts.len() ==> s.contains(k)
}

/// Which input each rejection names.
pub open spec fn encode_err_cond(ts: Seq<AbstractTensor>, e: EncodeError) -> bool {
    match e {
        EncodeError::LengthMismatch { tensor } => 0 <= tensor < ts.len()
            && ts[tensor as int].shape@.len() != ts[tensor as int].legs@.len(),
        EncodeError::InvalidDimension { tensor, leg } => 0 <= tensor < ts.len() && 0 <= leg < ts[
            tensor as int
        ].shape@.len() && ts[tensor as int].shape@[leg as int] < 2,
        EncodeError::Trace { tensor } => 0 <= tensor < ts.len() && exists|q1: int, q2: int|
            0 <= q1 < q2 < ts[tensor as int].legs@.len() && ts[tensor as int].legs@[q1] == ts[
                tensor as int
            ].legs@[q2],
        EncodeError::TripleLeg { label } => label_count(ts, label) > 2,
        EncodeError::DimensionMismatch { label } => exists|t1: int, q1: int, t2: int, q2: int|
            {
                &&& 0 <= t1 < ts.len()
                &&& 0 <= q1 < ts[t1].legs@.len()
                &&& q1 < ts[t1].shape@.len()
                &&& 0 <= t2 < ts.len()
                &&& 0 <= q2 < ts[t2].legs@.len()
                &&& q2 < ts[t2].shape@.len()
                &&& ts[t1].legs@[q1] == label
                &&& ts[t2].legs@[q2] == label
                &&& ts[t1].shape@[q1] != ts[t2].shape@[q2]
            },
        EncodeError::TooManyLegs => exists|s: Seq<i8>| #[trigger] label_listing(ts, s) && s.len()
            > 64,
        EncodeError::NotConnected => ts.len() == 0 || !input_connected(ts),
    }
}

pub proof fn lemma_count_in_push(legs: Seq<i8>, x: i8, l: i8)
    ensures
        count_in(legs.push(x), l) == count_in(legs, l) + (if x == l {
            1nat
        } else {
            0nat
        }),
    decreases legs.len(),
{
    if legs.len() == 0 {
        assert(legs.push(x)[0] == x);
        assert(legs.push(x).drop_first() =~= Seq::<i8>::empty());
        assert(count_in(legs.push(x).drop_first(), l) == 0);
        assert(count_in(legs, l) == 0);
    } else {
        assert(legs.push(x)[0] == legs[0]);
        assert(legs.push(x).drop_first() =~= legs.drop_first().push(x));
        lemma_count_in_push(legs.drop_first(), x, l);
        assert(count_in(legs.push(x), l) == (if legs[0] == l {
            1nat
        } else {
            0nat
        }) + count_in(legs.drop_first().push(x), l));
        assert(count_in(legs, l) == (if legs[0] == l {
            1nat
        } else {
            0nat
        }) + count_in(legs.drop_first(), l));
    }
}

pub proof fn lemma_label_count_push(ts: Seq<AbstractTensor>, x: AbstractTensor, l: i8)
    ensures
        label_count(ts.push(x), l) == label_count(ts, l) + count_in(x.legs@, l),
    decreases ts.len(),
{
    if ts.len() == 0 {
        assert(ts.push(x)[0] == x);
        assert(ts.push(x).drop_first() =~= Seq::<AbstractTensor>::empty());
        assert(label_count(ts.push(x).drop_first(), l) == 0);
    } else {
        assert(ts.push(x)[0] == ts[0]);
        assert(ts.push(x).drop_first() =~= ts.drop_first().push(x));
        lemma_label_count_push(ts.drop_first(), x, l);
    }
}

/// A positive count names a position.
pub proof fn lemma_count_in_pos(legs: Seq<i8>, l: i8)
    requires
        count_in(legs, l) >= 1,
    ensures
        exists|q: int| 0 <= q < legs.len() && legs[q] == l,
    decreases legs.len(),
{
    if legs[0] == l {
    } else {
        lemma_count_in_pos(legs.drop_first(), l);
        let q = choose|q: int| 0 <= q < legs.drop_first().len() && legs.drop_first()[q] == l;
        assert(legs[q + 1] == l);
    }
}

/// A count of two names two positions.
pub proof fn lemma_count_in_two(legs: Seq<i8>, l: i8)
    requires
        count_in(legs, l) >= 2,
    ensures
        exists|q1: int, q2: int| 0 <= q1 < q2 < legs.len() && legs[q1] == l && legs[q2] == l,
    decreases legs.len(),
{
    if legs[0] == l {
        lemma_count_in_pos(legs.drop_first(), l);
        let q = choose|q: int| 0 <= q < legs.drop_first().len() && legs.drop_first()[q] == l;
        assert(legs[0] == l && legs[q + 1] == l && 0 < q + 1 < legs.len());
    } else {
        lemma_count_in_two(legs.drop_first(), l);
        let (q1, q2) = choose|q1: int, q2: int|
            0 <= q1 < q2 < legs.drop_first().len() && legs.drop_first()[q1] == l
                && legs.drop_first()[q2] == l;
        assert(legs[q1 + 1] == l && legs[q2 + 1] == l);
    }
}

/// A position names a positive count.
pub proof fn lemma_pos_count_in(legs: Seq<i8>, q: int)
    requires
        0 <= q < legs.len(),
    ensures
        count_in(legs, legs[q]) >= 1,
    decreases legs.len(),
{
    if q > 0 {
        lemma_pos_count_in(legs.drop_first(), q - 1);
    }
}

/// Pairwise-distinct legs carry each label at most once.
pub proof fn lemma_count_in_nodup(legs: Seq<i8>, l: i8)
    requires
        forall|q1: int, q2: int|
            #![trigger legs[q1], legs[q2]]
            0 <= q1 < q2 < legs.len() ==> legs[q1] != legs[q2],
    ensures
        count_in(legs, l) <= 1,
{
    if count_in(legs, l) >= 2 {
        lemma_count_in_two(legs, l);
    }
}

/// The count over a prefix, plus the occurrence at the boundary, never
/// exceeds the full count.
pub proof fn lemma_count_in_take_le(legs: Seq<i8>, q: int, l: i8)
    requires
        0 <= q <= legs.len(),
    ensures
        count_in(legs.take(q), l) <= count_in(legs, l),
        q < legs.len() && legs[q] == l ==> count_in(legs.take(q), l) + 1 <= count_in(legs, l),
    decreases legs.len() - q,
{
    if q < legs.len() {
        assert(legs.take(q + 1) =~= legs.take(q).push(legs[q]));
        lemma_count_in_push(legs.take(q), legs[q], l);
        lemma_count_in_take_le(legs, q + 1, l);
    } else {
        assert(legs.take(q) =~= legs);
    }
}

/// The label count over a tensor prefix plus the count inside the boundary
/// tensor never exceeds the full label count.
pub proof fn lemma_label_count_take_le(ts: Seq<AbstractTensor>, t: int, l: i8)
    requires
        0 <= t <= ts.len(),
    ensures
        label_count(ts.take(t), l) <= label_count(ts, l),
        t < ts.len() ==> label_count(ts.take(t), l) + count_in(ts[t].legs@, l) <= label_count(
            ts,
            l,
        ),
    decreases ts.len() - t,
{
    if t < ts.len() {
        assert(ts.take(t + 1) =~= ts.take(t).push(ts[t]));
        lemma_label_count_push(ts.take(t), ts[t], l);
        lemma_label_count_take_le(ts, t + 1, l);
    } else {
        assert(ts.take(t) =~= ts);
    }
}

/// Occurrences of `l` in one leg list, counted by walking it.
pub fn count_label(legs: &Vec<i8>, l: i8) -> (r: usize)
    ensures
        r == count_in(legs@, l),
{
    let mut r: usize = 0;
    let mut q: usize = 0;
    proof {
        assert(legs@.take(0) =~= Seq::<i8>::empty());
    }
    while q < legs.len()
        invariant
            q <= legs@.len(),
            r == count_in(legs@.take(q as int), l),
            r <= q,
        decreases legs.len() - q,
    {
        proof {
            assert(legs@.take(q + 1) =~= legs@.take(q as int).push(legs@[q as int]));
            lemma_count_in_push(legs@.take(q as int), legs@[q as int], l);
        }
        if legs[q] == l {
            r = r + 1;
        }
        q = q + 1;
    }
    proof {
        assert(legs@.take(legs@.len() as int) =~= legs@);
    }
    r
}


/// Two distinct positions with the same label make the count at least two.
pub proof fn lemma_two_pos_count_in(legs: Seq<i8>, q1: int, q2: int)
    requires
        0 <= q1 < q2 < legs.len(),
        legs[q1] == legs[q2],
    ensures
        count_in(legs, legs[q1]) >= 2,
    decreases legs.len(),
{
    if q1 == 0 {
        lemma_pos_count_in(legs.drop_first(), q2 - 1);
    } else {
        lemma_two_pos_count_in(legs.drop_first(), q1 - 1, q2 - 1);
    }
}

/// The count of label `l` over the scanned prefix: tensors before `t`
/// entirely, tensor `t` up to (excluding) leg `q`.
pub open spec fn partial_count(ts: Seq<AbstractTensor>, t: int, q: int, l: i8) -> nat {
    if t >= ts.len() {
        label_count(ts, l)
    } else {
        label_count(ts.take(t), l) + count_in(ts[t].legs@.take(q), l)
    }
}

/// Position `(t2, q2)` lies in the scanned prefix ending before `(t, q)`.
pub open spec fn scanned(ts: Seq<AbstractTensor>, t: int, q: int, t2: int, q2: int) -> bool {
    &&& 0 <= t2 < ts.len()
    &&& 0 <= q2 < ts[t2].legs@.len()
    &&& (t2 < t || (t2 == t && q2 < q))
}

/// A table row is sound for the scanned prefix.
pub open spec fn entry_partial(ts: Seq<AbstractTensor>, t: int, q: int, e: LegEntry) -> bool {
    &&& e.count as nat == partial_count(ts, t, q, e.label)
    &&& 1 <= e.count <= 2
    &&& forall|t2: int, q2: int|
        #![trigger ts[t2].legs@[q2]]
        scanned(ts, t, q, t2, q2) && ts[t2].legs@[q2] == e.label && q2 < ts[t2].shape@.len()
            ==> ts[t2].shape@[q2] == e.dim
    &&& exists|t2: int, q2: int|
        scanned(ts, t, q, t2, q2) && q2 < ts[t2].shape@.len() && ts[t2].legs@[q2] == e.label
            && ts[t2].shape@[q2] == e.dim
}

/// The table is sound and complete for the scanned prefix.
pub open spec fn table_partial(ts: Seq<AbstractTensor>, t: int, q: int, tab: Seq<LegEntry>) -> bool {
    &&& forall|k: int| 0 <= k < tab.len() ==> entry_partial(ts, t, q, #[trigger] tab[k])
    &&& tab_labels_distinct(tab)
    &&& forall|l: i8| #[trigger] partial_count(ts, t, q, l) >= 1 ==> tab_has(tab, l)
}

/// Everything scanned so far was found valid.
pub open spec fn prefix_valid(ts: Seq<AbstractTensor>, t: int, q: int) -> bool {
    &&& forall|t2: int| 0 <= t2 < t && t2 < ts.len() ==> (#[trigger] ts[t2]).shape@.len()
        == ts[t2].legs@.len()
    &&& forall|t2: int, q2: int|
        #![trigger ts[t2].shape@[q2]]
        scanned(ts, t, q, t2, q2) && q2 < ts[t2].shape@.len() ==> ts[t2].shape@[q2] >= 2
    &&& forall|t2: int, q2: int|
        #![trigger ts[t2].legs@[q2]]
        scanned(ts, t, q, t2, q2) ==> count_in(ts[t2].legs@, ts[t2].legs@[q2]) == 1
}

/// Scanning one more leg raises its label's partial count by one and keeps
/// every other count.
pub proof fn lemma_partial_step(ts: Seq<AbstractTensor>, t: int, q: int)
    requires
        0 <= t < ts.len(),
        0 <= q < ts[t].legs@.len(),
    ensures
        forall|l: i8| #[trigger] partial_count(ts, t, q + 1, l) == partial_count(ts, t, q, l) + (
        if ts[t].legs@[q] == l {
            1nat
        } else {
            0nat
        }),
{
    assert forall|l: i8| #[trigger] partial_count(ts, t, q + 1, l) == partial_count(ts, t, q, l)
        + (if ts[t].legs@[q] == l {
        1nat
    } else {
        0nat
    }) by {
        assert(ts[t].legs@.take(q + 1) =~= ts[t].legs@.take(q).push(ts[t].legs@[q]));
        lemma_count_in_push(ts[t].legs@.take(q), ts[t].legs@[q], l);
    }
}

/// Finishing a tensor and starting the next one scans the same prefix.
pub proof fn lemma_partial_boundary(ts: Seq<AbstractTensor>, t: int)
    requires
        0 <= t < ts.len(),
    ensures
        forall|l: i8|
            #![trigger partial_count(ts, t + 1, 0, l)]
            partial_count(ts, t, ts[t].legs@.len() as int, l) == partial_count(ts, t + 1, 0, l),
{
    assert forall|l: i8|
        #![trigger partial_count(ts, t + 1, 0, l)]
        partial_count(ts, t, ts[t].legs@.len() as int, l) == partial_count(ts, t + 1, 0, l) by {
        assert(ts[t].legs@.take(ts[t].legs@.len() as int) =~= ts[t].legs@);
        if t + 1 < ts.len() {
            assert(ts[t + 1].legs@.take(0) =~= Seq::<i8>::empty());
        }
        assert(ts.take(t + 1) =~= ts.take(t).push(ts[t]));
        lemma_label_count_push(ts.take(t), ts[t], l);
        if t + 1 >= ts.len() {
            assert(ts.take(t + 1) =~= ts);
        }
    }
}


/// An occurrence of `l` on some tensor of the list makes its label count
/// positive.
pub proof fn lemma_label_count_pos(ss: Seq<AbstractTensor>, t2: int, l: i8)
    requires
        0 <= t2 < ss.len(),
        count_in(ss[t2].legs@, l) >= 1,
    ensures
        label_count(ss, l) >= 1,
    decreases ss.len(),
{
    if t2 > 0 {
        lemma_label_count_pos(ss.drop_first(), t2 - 1, l);
    }
}

/// An occurrence inside the scanned prefix makes the partial count positive.
pub proof fn lemma_scanned_occurrence(ts: Seq<AbstractTensor>, t: int, q: int, t2: int, q2: int)
    requires
        0 <= t < ts.len(),
        0 <= q <= ts[t].legs@.len(),
        scanned(ts, t, q, t2, q2),
    ensures
        partial_count(ts, t, q, ts[t2].legs@[q2]) >= 1,
{
    let l = ts[t2].legs@[q2];
    if t2 < t {
        lemma_pos_count_in(ts[t2].legs@, q2);
        assert(ts.take(t)[t2] == ts[t2]);
        lemma_label_count_pos(ts.take(t), t2, l);
    } else {
        assert(ts[t].legs@.take(q)[q2] == ts[t].legs@[q2]);
        lemma_pos_count_in(ts[t].legs@.take(q), q2);
    }
}

/// A row whose label is not the leg being scanned is unchanged by the step.
pub proof fn lemma_entry_step_other(ts: Seq<AbstractTensor>, t: int, q: int, e: LegEntry)
    requires
        0 <= t < ts.len(),
        0 <= q < ts[t].legs@.len(),
        entry_partial(ts, t, q, e),
        e.label != ts[t].legs@[q],
    ensures
        entry_partial(ts, t, q + 1, e),
{
    lemma_partial_step(ts, t, q);
    assert(partial_count(ts, t, q + 1, e.label) == partial_count(ts, t, q, e.label));
    assert forall|t2: int, q2: int|
        #![trigger ts[t2].legs@[q2]]
        scanned(ts, t, q + 1, t2, q2) && ts[t2].legs@[q2] == e.label && q2 < ts[t2].shape@.len()
            implies ts[t2].shape@[q2] == e.dim by {
        assert(scanned(ts, t, q, t2, q2));
    }
    let (t2, q2) = choose|t2: int, q2: int|
        scanned(ts, t, q, t2, q2) && q2 < ts[t2].shape@.len() && ts[t2].legs@[q2] == e.label && ts[
            t2
        ].shape@[q2] == e.dim;
    assert(scanned(ts, t, q + 1, t2, q2));
}

/// Scanning the first occurrence of a label yields a sound fresh row.
pub proof fn lemma_entry_new(ts: Seq<AbstractTensor>, t: int, q: int, d: u64)
    requires
        0 <= t < ts.len(),
        0 <= q < ts[t].legs@.len(),
        q < ts[t].shape@.len(),
        ts[t].shape@[q] == d,
        partial_count(ts, t, q, ts[t].legs@[q]) == 0,
    ensures
        entry_partial(ts, t, q + 1, LegEntry { label: ts[t].legs@[q], dim: d, count: 1 }),
{
    let l = ts[t].legs@[q];
    lemma_partial_step(ts, t, q);
    assert(partial_count(ts, t, q + 1, l) == 1);
    assert forall|t2: int, q2: int|
        #![trigger ts[t2].legs@[q2]]
        scanned(ts, t, q + 1, t2, q2) && ts[t2].legs@[q2] == l && q2 < ts[t2].shape@.len()
            implies ts[t2].shape@[q2] == d by {
        if !(t2 == t && q2 == q) {
            assert(scanned(ts, t, q, t2, q2));
            lemma_scanned_occurrence(ts, t, q, t2, q2);
            assert(false);
        }
    }
    assert(scanned(ts, t, q + 1, t, q) && ts[t].legs@[q] == l && ts[t].shape@[q] == d);
}

/// Scanning the second occurrence of a label bumps its sound row to two
/// carriers.
pub proof fn lemma_entry_bump(ts: Seq<AbstractTensor>, t: int, q: int, e: LegEntry)
    requires
        0 <= t < ts.len(),
        0 <= q < ts[t].legs@.len(),
        q < ts[t].shape@.len(),
        entry_partial(ts, t, q, e),
        e.label == ts[t].legs@[q],
        e.count == 1,
        ts[t].shape@[q] == e.dim,
    ensures
        entry_partial(ts, t, q + 1, LegEntry { label: e.label, dim: e.dim, count: 2 }),
{
    let l = ts[t].legs@[q];
    lemma_partial_step(ts, t, q);
    assert(partial_count(ts, t, q + 1, l) == 2);
    assert forall|t2: int, q2: int|
        #![trigger ts[t2].legs@[q2]]
        scanned(ts, t, q + 1, t2, q2) && ts[t2].legs@[q2] == l && q2 < ts[t2].shape@.len()
            implies ts[t2].shape@[q2] == e.dim by {
        if !(t2 == t && q2 == q) {
            assert(scanned(ts, t, q, t2, q2));
        }
    }
    assert(scanned(ts, t, q + 1, t, q) && ts[t].legs@[q] == l && ts[t].shape@[q] == e.dim);
}

/// Position of the row with the given label, if one exists.
fn find_label(tab: &Vec<LegEntry>, l: i8) -> (r: Option<usize>)
    ensures
        match r {
            Some(k) => k < tab@.len() && tab@[k as int].label == l,
            None => forall|k: int| 0 <= k < tab@.len() ==> (#[trigger] tab@[k]).label != l,
        },
{
    let mut k: usize = 0;
    while k < tab.len()
        invariant
            k <= tab@.len(),
            forall|k2: int| 0 <= k2 < k ==> (#[trigger] tab@[k2]).label != l,
        decreases tab.len() - k,
    {
        if tab[k].label == l {
            return Some(k);
        }
        k = k + 1;
    }
    None
}

/// Walk every tensor and populate the leg table, enforcing in order: equal
/// shape and leg lengths, dimensions of at least 2, no repeated label inside
/// one tensor, no label on a third tensor, and one dimension per label.
#[verifier::rlimit(100)]
pub fn build_leg_table(tensors: &Vec<AbstractTensor>) -> (r: Result<Vec<LegEntry>, EncodeError>)
    ensures
        match r {
            Ok(tab) => {
                &&& shapes_match(tensors@)
                &&& dims_valid(tensors@)
                &&& no_trace(tensors@)
                &&& counts_ok(tensors@)
                &&& dims_agree(tensors@)
                &&& forall|k: int|
                    0 <= k < tab@.len() ==> entry_props(tensors@, #[trigger] tab@[k])
                &&& tab_labels_distinct(tab@)
                &&& forall|l: i8| #[trigger] label_count(tensors@, l) >= 1 <==> tab_has(tab@, l)
            },
            Err(e) => encode_err_cond(tensors@, e),
        },
{
    let ghost ts = tensors@;
    let mut tab: Vec<LegEntry> = Vec::new();
    let mut t: usize = 0;
    proof {
        if ts.len() > 0 {
            assert(ts[0].legs@.take(0) =~= Seq::<i8>::empty());
            assert(ts.take(0) =~= Seq::<AbstractTensor>::empty());
        }
    }
    while t < tensors.len()
        invariant
            ts == tensors@,
            t <= ts.len(),
            table_partial(ts, t as int, 0, tab@),
            prefix_valid(ts, t as int, 0),
            forall|t2: int|
                0 <= t2 < t ==> (#[trigger] ts[t2]).shape@.len() == ts[t2].legs@.len(),
        decreases tensors.len() - t,
    {
        if tensors[t].shape.len() != tensors[t].legs.len() {
            return Err(EncodeError::LengthMismatch { tensor: t });
        }
        let n_legs = tensors[t].legs.len();
        let mut q: usize = 0;
        while q < n_legs
            invariant
                ts == tensors@,
                t < ts.len(),
                n_legs == ts[t as int].legs@.len(),
                ts[t as int].shape@.len() == ts[t as int].legs@.len(),
                q <= n_legs,
                table_partial(ts, t as int, q as int, tab@),
                prefix_valid(ts, t as int, q as int),
                forall|t2: int|
                    0 <= t2 < t ==> (#[trigger] ts[t2]).shape@.len() == ts[t2].legs@.len(),
            decreases n_legs - q,
        {
            let l = tensors[t].legs[q];
            let d = tensors[t].shape[q];
            if d < 2 {
                return Err(EncodeError::InvalidDimension { tensor: t, leg: q });
            }
            let c = count_label(&tensors[t].legs, l);
            if c > 1 {
                proof {
                    lemma_count_in_two(ts[t as int].legs@, l);
                    let (q1, q2) = choose|q1: int, q2: int|
                        0 <= q1 < q2 < ts[t as int].legs@.len() && ts[t as int].legs@[q1] == l
                            && ts[t as int].legs@[q2] == l;
                    assert(ts[t as int].legs@[q1] == ts[t as int].legs@[q2]);
                }
                return Err(EncodeError::Trace { tensor: t });
            }
            proof {
                lemma_pos_count_in(ts[t as int].legs@, q as int);
                lemma_partial_step(ts, t as int, q as int);
            }
            match find_label(&tab, l) {
                None => {
                    proof {
                        if partial_count(ts, t as int, q as int, l) >= 1 {
                            assert(tab_has(tab@, l));
                            let k = choose|k: int|
                                0 <= k < tab@.len() && (#[trigger] tab@[k]).label == l;
                            assert(false);
                        }
                    }
                    let ghost old_tab = tab@;
                    tab.push(LegEntry { label: l, dim: d, count: 1 });
                    proof {
                        assert(tab@ == old_tab.push(LegEntry { label: l, dim: d, count: 1 }));
                        lemma_entry_new(ts, t as int, q as int, d);
                        assert forall|k: int|
                            0 <= k < tab@.len() implies entry_partial(
                            ts,
                            t as int,
                            q + 1,
                            #[trigger] tab@[k],
                        ) by {
                            if k < old_tab.len() {
                                assert(tab@[k] == old_tab[k]);
                                lemma_entry_step_other(ts, t as int, q as int, old_tab[k]);
                            } else {
                                assert(tab@[k] == LegEntry { label: l, dim: d, count: 1 });
                            }
                        }
                        assert forall|l2: i8|
                            #[trigger] partial_count(ts, t as int, q + 1, l2) >= 1 implies tab_has(
                            tab@,
                            l2,
                        ) by {
                            lemma_partial_step(ts, t as int, q as int);
                            if l2 == l {
                                assert(tab@[old_tab.len() as int].label == l);
                            } else {
                                if partial_count(ts, t as int, q as int, l2) >= 1 {
                                    let k = choose|k: int|
                                        0 <= k < old_tab.len() && (#[trigger] old_tab[k]).label
                                            == l2;
                                    assert(tab@[k].label == l2);
                                }
                            }
                        }
                    }
                },
                Some(k) => {
                    if tab[k].count >= 2 {
                        proof {
                            lemma_count_in_take_le(ts[t as int].legs@, q as int, l);
                            lemma_label_count_take_le(ts, t as int, l);
                        }
                        return Err(EncodeError::TripleLeg { label: l });
                    }
                    if tab[k].dim != d {
                        proof {
                            assert(entry_partial(ts, t as int, q as int, tab@[k as int]));
                            let (t2, q2) = choose|t2: int, q2: int|
                                scanned(ts, t as int, q as int, t2, q2) && q2 < ts[t2].shape@.len()
                                    && ts[t2].legs@[q2] == l && ts[t2].shape@[q2] == tab@[
                                    k as int
                                ].dim;
                            assert(ts[t2].legs@[q2] == ts[t as int].legs@[q as int]);
                            assert(ts[t2].shape@[q2] != ts[t as int].shape@[q as int]);
                        }
                        return Err(EncodeError::DimensionMismatch { label: l });
                    }
                    let e = tab[k];
                    let ghost old_tab = tab@;
                    tab.set(k, LegEntry { label: l, dim: e.dim, count: 2 });
                    proof {
                        assert(tab@ == old_tab.update(
                            k as int,
                            LegEntry { label: l, dim: e.dim, count: 2 },
                        ));
                        lemma_entry_bump(ts, t as int, q as int, e);
                        assert forall|k2: int|
                            0 <= k2 < tab@.len() implies entry_partial(
                            ts,
                            t as int,
                            q + 1,
                            #[trigger] tab@[k2],
                        ) by {
                            if k2 != k as int {
                                assert(tab@[k2] == old_tab[k2]);
                                assert(old_tab[k2].label != l);
                                lemma_entry_step_other(ts, t as int, q as int, old_tab[k2]);
                            } else {
                                assert(tab@[k2] == LegEntry { label: l, dim: e.dim, count: 2 });
                            }
                        }
                        assert forall|l2: i8|
                            #[trigger] partial_count(ts, t as int, q + 1, l2) >= 1 implies tab_has(
                            tab@,
                            l2,
                        ) by {
                            lemma_partial_step(ts, t as int, q as int);
                            if l2 == l {
                                assert(tab@[k as int].label == l);
                            } else {
                                if partial_count(ts, t as int, q as int, l2) >= 1 {
                                    let k3 = choose|k3: int|
                                        0 <= k3 < old_tab.len() && (#[trigger] old_tab[k3]).label
                                            == l2;
                                    assert(tab@[k3].label == l2);
                                }
                            }
                        }
                    }
                },
            }
            q = q + 1;
        }
        proof {
            lemma_partial_boundary(ts, t as int);
            assert forall|k: int|
                0 <= k < tab@.len() implies entry_partial(ts, t + 1, 0, #[trigger] tab@[k]) by {
                assert(entry_partial(ts, t as int, n_legs as int, tab@[k]));
                assert(partial_count(ts, t + 1, 0, tab@[k].label) == partial_count(
                    ts,
                    t as int,
                    n_legs as int,
                    tab@[k].label,
                ));
                assert forall|t2: int, q2: int|
                    #![trigger ts[t2].legs@[q2]]
                    scanned(ts, t + 1, 0, t2, q2) && ts[t2].legs@[q2] == tab@[k].label && q2 < ts[
                    t2
                ].shape@.len() implies ts[t2].shape@[q2] == tab@[k].dim by {
                    assert(scanned(ts, t as int, n_legs as int, t2, q2));
                }
                let (t2, q2) = choose|t2: int, q2: int|
                    scanned(ts, t as int, n_legs as int, t2, q2) && q2 < ts[t2].shape@.len() && ts[
                        t2
                    ].legs@[q2] == tab@[k].label && ts[t2].shape@[q2] == tab@[k].dim;
                assert(scanned(ts, t + 1, 0, t2, q2));
            }
            assert forall|l: i8| #[trigger] partial_count(ts, t + 1, 0, l) >= 1 implies tab_has(
                tab@,
                l,
            ) by {
                assert(partial_count(ts, t as int, n_legs as int, l) >= 1);
            }
            assert forall|t2: int, q2: int|
                #![trigger ts[t2].shape@[q2]]
                scanned(ts, t + 1, 0, t2, q2) && q2 < ts[t2].shape@.len() implies ts[t2].shape@[q2]
                >= 2 by {
                assert(scanned(ts, t as int, n_legs as int, t2, q2));
            }
            assert forall|t2: int, q2: int|
                #![trigger ts[t2].legs@[q2]]
                scanned(ts, t + 1, 0, t2, q2) implies count_in(ts[t2].legs@, ts[t2].legs@[q2])
                == 1 by {
                assert(scanned(ts, t as int, n_legs as int, t2, q2));
            }
        }
        t = t + 1;
    }
    proof {
        assert(t == ts.len());
        assert forall|l: i8| #[trigger] label_count(ts, l) <= 2 by {
            if label_count(ts, l) >= 1 {
                assert(partial_count(ts, t as int, 0, l) >= 1);
                assert(tab_has(tab@, l));
                let k = choose|k: int| 0 <= k < tab@.len() && (#[trigger] tab@[k]).label == l;
                assert(entry_partial(ts, t as int, 0, tab@[k]));
            }
        }
        assert forall|t1: int, q1: int, t2: int, q2: int|
            #![trigger ts[t1].legs@[q1], ts[t2].legs@[q2]]
            0 <= t1 < ts.len() && 0 <= q1 < ts[t1].legs@.len() && q1 < ts[t1].shape@.len() && 0
                <= t2 < ts.len() && 0 <= q2 < ts[t2].legs@.len() && q2 < ts[t2].shape@.len() && ts[
                t1
            ].legs@[q1] == ts[t2].legs@[q2] implies ts[t1].shape@[q1] == ts[t2].shape@[q2] by {
            lemma_pos_count_in(ts[t1].legs@, q1);
            lemma_label_count_take_le(ts, t1, ts[t1].legs@[q1]);
            assert(label_count(ts, ts[t1].legs@[q1]) >= 1);
            assert(partial_count(ts, t as int, 0, ts[t1].legs@[q1]) >= 1);
            assert(tab_has(tab@, ts[t1].legs@[q1]));
            let k = choose|k: int|
                0 <= k < tab@.len() && (#[trigger] tab@[k]).label == ts[t1].legs@[q1];
            assert(entry_partial(ts, ts.len() as int, 0, tab@[k]));
            assert(scanned(ts, ts.len() as int, 0, t1, q1));
            assert(scanned(ts, ts.len() as int, 0, t2, q2));
        }
        assert forall|t2: int, q1: int, q2: int|
            #![trigger ts[t2].legs@[q1], ts[t2].legs@[q2]]
            0 <= t2 < ts.len() && 0 <= q1 < q2 < ts[t2].legs@.len() implies ts[t2].legs@[q1]
            != ts[t2].legs@[q2] by {
            if ts[t2].legs@[q1] == ts[t2].legs@[q2] {
                lemma_two_pos_count_in(ts[t2].legs@, q1, q2);
                assert(scanned(ts, ts.len() as int, 0, t2, q1));
            }
        }
        assert forall|k: int|
            0 <= k < tab@.len() implies entry_props(ts, #[trigger] tab@[k]) by {
            assert(entry_partial(ts, ts.len() as int, 0, tab@[k]));
        }
        assert forall|l: i8| #[trigger] label_count(ts, l) >= 1 implies tab_has(tab@, l) by {
            assert(partial_count(ts, ts.len() as int, 0, l) >= 1);
        }
        assert forall|l: i8| tab_has(tab@, l) implies #[trigger] label_count(ts, l) >= 1 by {
            let k = choose|k: int| 0 <= k < tab@.len() && (#[trigger] tab@[k]).label == l;
            assert(entry_partial(ts, ts.len() as int, 0, tab@[k]));
        }
    }
    Ok(tab)
}


pub open spec fn abs8(l: i8) -> int {
    if l < 0 {
        -(l as int)
    } else {
        l as int
    }
}

/// The bit order: contracted labels (carried twice) before open ones, then
/// by absolute value, ties by signed value.
pub open spec fn label_le(ts: Seq<AbstractTensor>, a: i8, b: i8) -> bool {
    let oa: int = if label_count(ts, a) == 1 {
        1
    } else {
        0
    };
    let ob: int = if label_count(ts, b) == 1 {
        1
    } else {
        0
    };
    ||| oa < ob
    ||| (oa == ob && (abs8(a) < abs8(b) || (abs8(a) == abs8(b) && a <= b)))
}

/// The same order on table rows, read off the stored carrier count.
pub open spec fn entry_le(a: LegEntry, b: LegEntry) -> bool {
    let oa: int = if a.count == 1 {
        1
    } else {
        0
    };
    let ob: int = if b.count == 1 {
        1
    } else {
        0
    };
    ||| oa < ob
    ||| (oa == ob && (abs8(a.label) < abs8(b.label) || (abs8(a.label) == abs8(b.label) && a.label
        <= b.label)))
}

pub proof fn lemma_entry_le_total(a: LegEntry, b: LegEntry, c: LegEntry)
    ensures
        entry_le(a, b) || entry_le(b, a),
        entry_le(a, b) && entry_le(b, c) ==> entry_le(a, c),
{
}

fn entry_le_exec(a: &LegEntry, b: &LegEntry) -> (r: bool)
    ensures
        r == entry_le(*a, *b),
{
    let oa: u8 = if a.count == 1 {
        1
    } else {
        0
    };
    let ob: u8 = if b.count == 1 {
        1
    } else {
        0
    };
    let aa: i32 = if a.label < 0 {
        -(a.label as i32)
    } else {
        a.label as i32
    };
    let ab: i32 = if b.label < 0 {
        -(b.label as i32)
    } else {
        b.label as i32
    };
    oa < ob || (oa == ob && (aa < ab || (aa == ab && a.label <= b.label)))
}


/// `e` is one of the table's rows.
pub open spec fn row_in(tab: Seq<LegEntry>, e: LegEntry) -> bool {
    exists|k: int| 0 <= k < tab.len() && #[trigger] tab[k] == e
}

pub proof fn lemma_row_in_take(tab: Seq<LegEntry>, k: int, e: LegEntry)
    requires
        0 <= k <= tab.len(),
        row_in(tab.take(k), e),
    ensures
        row_in(tab, e),
{
    let k2 = choose|k2: int| 0 <= k2 < tab.take(k).len() && #[trigger] tab.take(k)[k2] == e;
    assert(tab[k2] == e);
}

/// Sort the table: contracted labels first, then open ones, each group by
/// absolute label value. Insertion sort; every output row is an input row.
pub fn sort_leg_table(tab: Vec<LegEntry>) -> (r: Vec<LegEntry>)
    requires
        tab_labels_distinct(tab@),
    ensures
        r@.len() == tab@.len(),
        forall|k: int| 0 <= k < r@.len() ==> row_in(tab@, #[trigger] r@[k]),
        forall|l: i8| tab_has(r@, l) <==> #[trigger] tab_has(tab@, l),
        tab_labels_distinct(r@),
        forall|k1: int, k2: int|
            #![trigger r@[k1], r@[k2]]
            0 <= k1 < k2 < r@.len() ==> entry_le(r@[k1], r@[k2]),
{
    let ghost orig = tab@;
    let mut sorted: Vec<LegEntry> = Vec::new();
    let mut k: usize = 0;
    while k < tab.len()
        invariant
            orig == tab@,
            tab_labels_distinct(orig),
            k <= orig.len(),
            sorted@.len() == k,
            forall|k2: int|
                0 <= k2 < sorted@.len() ==> row_in(orig.take(k as int), #[trigger] sorted@[k2]),
            forall|l: i8| tab_has(sorted@, l) <==> #[trigger] tab_has(orig.take(k as int), l),
            tab_labels_distinct(sorted@),
            forall|k1: int, k2: int|
                #![trigger sorted@[k1], sorted@[k2]]
                0 <= k1 < k2 < sorted@.len() ==> entry_le(sorted@[k1], sorted@[k2]),
        decreases tab.len() - k,
    {
        let e = tab[k];
        let mut p: usize = 0;
        while p < sorted.len() && entry_le_exec(&sorted[p], &e)
            invariant
                p <= sorted@.len(),
                forall|p2: int| 0 <= p2 < p ==> entry_le(#[trigger] sorted@[p2], e),
            decreases sorted.len() - p,
        {
            p = p + 1;
        }
        let ghost pre = sorted@;
        sorted.insert(p, e);
        proof {
            assert(sorted@ == pre.insert(p as int, e));
            pre.insert_ensures(p as int, e);
            assert forall|x: int| 0 <= x < sorted@.len() implies sorted@[x] == (if x < p {
                pre[x]
            } else if x == p {
                e
            } else {
                pre[x - 1]
            }) by {
                if x > p {
                    assert(pre.insert(p as int, e)[(x - 1) + 1] == pre[x - 1]);
                }
            }
            // the fresh row's label is new: it was not scanned yet
            assert forall|p2: int|
                0 <= p2 < pre.len() implies (#[trigger] pre[p2]).label != e.label by {
                assert(row_in(orig.take(k as int), pre[p2]));
                let k3 = choose|k3: int|
                    0 <= k3 < orig.take(k as int).len() && #[trigger] orig.take(k as int)[k3]
                        == pre[p2];
                assert(orig[k3] == pre[p2]);
                assert(orig[k3].label != orig[k as int].label);
            }
            // sortedness across the insertion point
            assert forall|k1: int, k2: int|
                #![trigger sorted@[k1], sorted@[k2]]
                0 <= k1 < k2 < sorted@.len() implies entry_le(sorted@[k1], sorted@[k2]) by {
                lemma_entry_le_total(sorted@[k1], sorted@[k2], e);
                if k1 < p && k2 == p {
                    assert(entry_le(pre[k1], e));
                } else if k1 == p && k2 > p {
                    if p < pre.len() {
                        lemma_entry_le_total(sorted@[k1], pre[p as int], sorted@[k2]);
                        assert(!entry_le(pre[p as int], e));
                        lemma_entry_le_total(pre[p as int], e, e);
                        assert(entry_le(e, pre[p as int]));
                        if k2 - 1 > p {
                            assert(entry_le(pre[p as int], pre[k2 - 1]));
                        }
                        lemma_entry_le_total(e, pre[p as int], pre[k2 - 1]);
                    }
                } else if k1 < p && k2 > p {
                    assert(entry_le(pre[k1], pre[k2 - 1]));
                } else if k1 > p && k2 > p {
                    assert(entry_le(pre[k1 - 1], pre[k2 - 1]));
                } else {
                    assert(k1 < p && k2 < p);
                    assert(entry_le(pre[k1], pre[k2]));
                }
            }
            // membership grows by exactly the fresh label
            assert(orig.take(k + 1) =~= orig.take(k as int).push(orig[k as int]));
            assert forall|l: i8| tab_has(sorted@, l) <==> #[trigger] tab_has(
                orig.take(k + 1),
                l,
            ) by {
                if tab_has(sorted@, l) {
                    let x = choose|x: int| 0 <= x < sorted@.len() && (#[trigger] sorted@[x]).label
                        == l;
                    if x == p {
                        assert(orig.take(k + 1)[k as int] == e);
                        assert(tab_has(orig.take(k + 1), l));
                    } else {
                        let xx: int = if x < p {
                            x
                        } else {
                            x - 1
                        };
                        assert(sorted@[x] == pre[xx]);
                        assert(pre[xx].label == l);
                        assert(tab_has(pre, l));
                        assert(tab_has(orig.take(k as int), l));
                        let y = choose|y: int| 0 <= y < orig.take(k as int).len() && (
                        #[trigger] orig.take(k as int)[y]).label == l;
                        assert(orig.take(k + 1)[y] == orig.take(k as int)[y]);
                        assert(tab_has(orig.take(k + 1), l));
                    }
                }
                if tab_has(orig.take(k + 1), l) {
                    let y = choose|y: int| 0 <= y < orig.take(k + 1).len() && (#[trigger] orig.take(
                        k + 1,
                    )[y]).label == l;
                    if y == k as int {
                        assert(sorted@[p as int].label == l);
                        assert(tab_has(sorted@, l));
                    } else {
                        assert(orig.take(k as int)[y] == orig.take(k + 1)[y]);
                        assert(tab_has(orig.take(k as int), l));
                        assert(tab_has(pre, l));
                        let x = choose|x: int| 0 <= x < pre.len() && (#[trigger] pre[x]).label == l;
                        if x < p {
                            assert(sorted@[x] == pre[x]);
                            assert(sorted@[x].label == l);
                        } else {
                            assert(sorted@[x + 1] == pre[x]);
                            assert(sorted@[x + 1].label == l);
                        }
                        assert(tab_has(sorted@, l));
                    }
                }
            }
            // every row of the grown list is an input row
            assert forall|x: int|
                0 <= x < sorted@.len() implies row_in(orig.take(k + 1), #[trigger] sorted@[x]) by {
                if x == p {
                    assert(orig.take(k + 1)[k as int] == sorted@[x]);
                } else {
                    let xx: int = if x < p {
                        x
                    } else {
                        x - 1
                    };
                    assert(sorted@[x] == pre[xx]);
                    assert(row_in(orig.take(k as int), pre[xx]));
                    let k3 = choose|k3: int|
                        0 <= k3 < orig.take(k as int).len() && #[trigger] orig.take(k as int)[k3]
                            == pre[xx];
                    assert(orig.take(k + 1)[k3] == sorted@[x]);
                }
            }
            // distinctness: the fresh label differs from every old one
            assert forall|k1: int, k2: int|
                #![trigger sorted@[k1], sorted@[k2]]
                0 <= k1 < k2 < sorted@.len() implies sorted@[k1].label != sorted@[k2].label by {
                if k1 == p {
                    assert(sorted@[k2] == pre[k2 - 1]);
                } else if k2 == p {
                    assert(sorted@[k1] == pre[k1]);
                } else {
                    let x1: int = if k1 < p {
                        k1
                    } else {
                        k1 - 1
                    };
                    let x2: int = if k2 < p {
                        k2
                    } else {
                        k2 - 1
                    };
                    assert(sorted@[k1] == pre[x1] && sorted@[k2] == pre[x2]);
                    if x1 != x2 {
                        assert(pre[x1].label != pre[x2].label);
                    }
                }
            }
        }
        k = k + 1;
    }
    proof {
        assert forall|x: int|
            0 <= x < sorted@.len() implies row_in(orig, #[trigger] sorted@[x]) by {
            lemma_row_in_take(orig, k as int, sorted@[x]);
        }
        assert(orig.take(orig.len() as int) =~= orig);
    }
    sorted
}


/// What a successful encoding guarantees: the input is valid and connected,
/// the label list is a sorted listing of the distinct labels, the dimension
/// table matches every occurrence, and each tensor's bitmask holds exactly
/// the bits of its labels. The per-bit carrier counts equal the label counts,
/// so no bit is carried more than twice.
pub open spec fn encode_post(
    ts: Seq<AbstractTensor>,
    li: Seq<i8>,
    ld: Seq<u64>,
    tr: Seq<u64>,
) -> bool {
    &&& ts.len() >= 1
    &&& shapes_match(ts)
    &&& dims_valid(ts)
    &&& no_trace(ts)
    &&& counts_ok(ts)
    &&& dims_agree(ts)
    &&& input_connected(ts)
    &&& li.no_duplicates()
    &&& li.len() == ld.len()
    &&& li.len() <= 64
    &&& forall|l: i8| li.contains(l) <==> #[trigger] label_count(ts, l) >= 1
    &&& dims_ok(ld)
    &&& forall|p: int, t: int, q: int|
        #![trigger li[p], ts[t].legs@[q]]
        0 <= p < li.len() && 0 <= t < ts.len() && 0 <= q < ts[t].legs@.len() && q < ts[
            t
        ].shape@.len() && ts[t].legs@[q] == li[p] ==> ts[t].shape@[q] == ld[p]
    &&& forall|p1: int, p2: int|
        #![trigger li[p1], li[p2]]
        0 <= p1 < p2 < li.len() ==> label_le(ts, li[p1], li[p2])
    &&& tr.len() == ts.len()
    &&& forall|t: int, b: u64|
        0 <= t < tr.len() ==> (#[trigger] bit_set(tr[t], b) <==> (b < li.len() && count_in(
            ts[t].legs@,
            li[b as int],
        ) >= 1))
    &&& forall|b: u64| b < li.len() ==> #[trigger] occ(tr, b) == label_count(ts, li[b as int])
    &&& forall|b: u64| b >= li.len() ==> #[trigger] occ(tr, b) == 0
    &&& occ_le_two(tr)
    &&& is_connected(tr)
}

/// A single bit of a one-bit mask.
pub proof fn lemma_bit_shl(p: u64, b: u64)
    requires
        p < 64,
    ensures
        bit_set(1u64 << p, b) <==> b == p,
{
    if b < 64 {
        assert((((1u64 << p) >> b) & 1 == 1) <==> b == p) by (bit_vector)
            requires
                p < 64,
                b < 64,
        ;
    }
}

/// When per-tensor bits mirror per-tensor occurrences and no tensor carries
/// the label twice, the carrier count of the bit equals the label count.
pub proof fn lemma_occ_from_bits(ts: Seq<AbstractTensor>, tr: Seq<u64>, l: i8, b: u64)
    requires
        tr.len() == ts.len(),
        forall|t: int|
            0 <= t < ts.len() ==> (bit_set(#[trigger] tr[t], b) <==> count_in(ts[t].legs@, l)
                >= 1),
        forall|t: int| 0 <= t < ts.len() ==> count_in((#[trigger] ts[t]).legs@, l) <= 1,
    ensures
        occ(tr, b) == label_count(ts, l),
    decreases ts.len(),
{
    if ts.len() > 0 {
        assert forall|t: int|
            0 <= t < ts.drop_first().len() implies (bit_set(#[trigger] tr.drop_first()[t], b)
            <==> count_in(ts.drop_first()[t].legs@, l) >= 1) by {
            assert(tr.drop_first()[t] == tr[t + 1]);
            assert(ts.drop_first()[t] == ts[t + 1]);
        }
        assert forall|t: int|
            0 <= t < ts.drop_first().len() implies count_in(
            (#[trigger] ts.drop_first()[t]).legs@,
            l,
        ) <= 1 by {
            assert(ts.drop_first()[t] == ts[t + 1]);
        }
        lemma_occ_from_bits(ts.drop_first(), tr.drop_first(), l, b);
    }
}

/// A bit set on no tensor is carried by none.
pub proof fn lemma_occ_zero_bits(tr: Seq<u64>, b: u64)
    requires
        forall|t: int| 0 <= t < tr.len() ==> !bit_set(#[trigger] tr[t], b),
    ensures
        occ(tr, b) == 0,
    decreases tr.len(),
{
    if tr.len() > 0 {
        assert forall|t: int|
            0 <= t < tr.drop_first().len() implies !bit_set(#[trigger] tr.drop_first()[t], b) by {
            assert(tr.drop_first()[t] == tr[t + 1]);
        }
        lemma_occ_zero_bits(tr.drop_first(), b);
    }
}

/// When the bitmasks mirror the labels, two tensors share a bit exactly when
/// they share a label, and the two connectivity notions agree.
pub proof fn lemma_connectivity_transfer(ts: Seq<AbstractTensor>, li: Seq<i8>, tr: Seq<u64>)
    requires
        tr.len() == ts.len(),
        ts.len() >= 1,
        li.len() <= 64,
        forall|l: i8| li.contains(l) <==> #[trigger] label_count(ts, l) >= 1,
        forall|t: int, b: u64|
            0 <= t < tr.len() ==> (#[trigger] bit_set(tr[t], b) <==> (b < li.len() && count_in(
                ts[t].legs@,
                li[b as int],
            ) >= 1)),
    ensures
        is_connected(tr) <==> input_connected(ts),
{
    assert forall|a: int, b: int| #[trigger] edge(tr, a, b) <==> input_edge(ts, a, b) by {
        if edge(tr, a, b) {
            lemma_nonzero_has_bit(tr[a] & tr[b]);
            let bit = choose|bit: u64| bit_set(tr[a] & tr[b], bit);
            lemma_bit_set_ops(tr[a], tr[b], bit);
            assert(count_in(ts[a].legs@, li[bit as int]) >= 1);
            assert(count_in(ts[b].legs@, li[bit as int]) >= 1);
            assert(input_edge(ts, a, b));
        }
        if input_edge(ts, a, b) {
            let l = choose|l: i8|
                count_in(ts[a].legs@, l) >= 1 && #[trigger] count_in(ts[b].legs@, l) >= 1;
            lemma_label_count_pos(ts, a, l);
            assert(li.contains(l));
            let p = choose|p: int| 0 <= p < li.len() && li[p] == l;
            assert(0 <= p < 64);
            assert((p as u64) as int == p);
            assert(li[(p as u64) as int] == l);
            assert(count_in(ts[a].legs@, li[(p as u64) as int]) >= 1);
            assert(bit_set(tr[a], p as u64));
            assert(bit_set(tr[b], p as u64));
            lemma_bit_set_ops(tr[a], tr[b], p as u64);
            assert(bit_set(tr[a] & tr[b], p as u64));
            lemma_bit_set_ops(0, 0, p as u64);
            assert(tr[a] & tr[b] != 0);
            assert(edge(tr, a, b));
        }
    }
    assert forall|sx: Set<int>| #[trigger] closed_under_edges(tr, sx) <==> closed_under_input_edges(
        ts,
        sx,
    ) by {
        if closed_under_edges(tr, sx) {
            assert forall|a: int, b: int|
                sx.contains(a) && #[trigger] input_edge(ts, a, b) implies sx.contains(b) by {
                assert(edge(tr, a, b));
            }
        }
        if closed_under_input_edges(ts, sx) {
            assert forall|a: int, b: int|
                sx.contains(a) && #[trigger] edge(tr, a, b) implies sx.contains(b) by {
                assert(input_edge(ts, a, b));
            }
        }
    }
    if is_connected(tr) {
        assert forall|sx: Set<int>|
            sx.contains(0) && #[trigger] closed_under_input_edges(ts, sx) implies (forall|k: int|
            0 <= k < ts.len() ==> sx.contains(k)) by {
            assert(closed_under_edges(tr, sx));
        }
    }
    if input_connected(ts) {
        assert forall|sx: Set<int>|
            sx.contains(0) && #[trigger] closed_under_edges(tr, sx) implies (forall|k: int|
            0 <= k < tr.len() ==> sx.contains(k)) by {
            assert(closed_under_input_edges(ts, sx));
        }
    }
}

/// The bitmask of one tensor: the OR of `1 << position(label)` over its legs.
fn tensor_mask(tensor: &AbstractTensor, legs_indices: &Vec<i8>) -> (m: u64)
    requires
        legs_indices@.no_duplicates(),
        legs_indices@.len() <= 64,
        forall|q: int|
            0 <= q < tensor.legs@.len() ==> legs_indices@.contains(#[trigger] tensor.legs@[q]),
    ensures
        forall|b: u64|
            #[trigger] bit_set(m, b) <==> (b < legs_indices@.len() && count_in(
                tensor.legs@,
                legs_indices@[b as int],
            ) >= 1),
{
    let ghost li = legs_indices@;
    let ghost legs = tensor.legs@;
    let mut m: u64 = 0;
    let mut q: usize = 0;
    proof {
        assert(legs.take(0) =~= Seq::<i8>::empty());
        assert forall|b: u64| !(#[trigger] bit_set(0u64, b)) by {
            lemma_bit_set_ops(0, 0, b);
        }
    }
    while q < tensor.legs.len()
        invariant
            li == legs_indices@,
            legs == tensor.legs@,
            li.no_duplicates(),
            li.len() <= 64,
            forall|q2: int| 0 <= q2 < legs.len() ==> li.contains(#[trigger] legs[q2]),
            q <= legs.len(),
            forall|b: u64|
                #[trigger] bit_set(m, b) <==> (b < li.len() && count_in(
                    legs.take(q as int),
                    li[b as int],
                ) >= 1),
        decreases tensor.legs.len() - q,
    {
        let lab = tensor.legs[q];
        proof {
            assert(li.contains(legs[q as int]));
            assert(exists|pt: int| 0 <= pt < li.len() && li[pt] == legs[q as int]);
        }
        let ghost target = choose|pt: int| 0 <= pt < li.len() && li[pt] == legs[q as int];
        let mut p: usize = 0;
        while legs_indices[p] != lab
            invariant
                li == legs_indices@,
                li.len() <= 64,
                lab == legs[q as int],
                0 <= target < li.len(),
                li[target] == lab,
                p <= target,
                forall|p2: int| 0 <= p2 < p ==> li[p2] != lab,
            decreases target - p,
        {
            p = p + 1;
        }
        let ghost old_m = m;
        m = m | (1u64 << p);
        proof {
            assert(legs.take(q + 1) =~= legs.take(q as int).push(legs[q as int]));
            assert forall|b: u64|
                #[trigger] bit_set(m, b) <==> (b < li.len() && count_in(
                    legs.take(q + 1),
                    li[b as int],
                ) >= 1) by {
                lemma_bit_set_ops(old_m, 1u64 << p, b);
                lemma_bit_shl(p as u64, b);
                if b < li.len() {
                    lemma_count_in_push(legs.take(q as int), legs[q as int], li[b as int]);
                    if b != p as u64 {
                        assert(li[b as int] != lab);
                    } else {
                        assert(count_in(legs.take(q + 1), li[b as int]) >= 1);
                    }
                }
            }
        }
        q = q + 1;
    }
    proof {
        assert(legs.take(legs.len() as int) =~= legs);
    }
    m
}

/// Validate the tensors and derive the bit encoding: the sorted label list,
/// the per-bit dimension table, and one bitmask per tensor. Rejects, in
/// order: mismatched lengths, dimensions under 2, traces, labels on three
/// tensors, contradictory dimensions, more than 64 distinct labels, and
/// disconnected networks.
#[verifier::rlimit(100)]
pub fn represent_binary(tensors: &Vec<AbstractTensor>) -> (r: Result<
    (Vec<i8>, Vec<u64>, Vec<u64>),
    EncodeError,
>)
    ensures
        match r {
            Ok(o) => encode_post(tensors@, o.0@, o.1@, o.2@),
            Err(e) => encode_err_cond(tensors@, e),
        },
{
    let ghost ts = tensors@;
    if tensors.len() == 0 {
        return Err(EncodeError::NotConnected);
    }
    let tab = match build_leg_table(tensors) {
        Ok(tab) => tab,
        Err(e) => {
            return Err(e);
        },
    };
    let ghost labs = tab@.map_values(|e: LegEntry| e.label);
    proof {
        assert(labs.len() == tab@.len());
        assert forall|k1: int, k2: int|
            0 <= k1 < labs.len() && 0 <= k2 < labs.len() && k1 != k2 implies labs[k1]
            != labs[k2] by {
            assert(labs[k1] == tab@[k1].label && labs[k2] == tab@[k2].label);
        }
        assert(labs.no_duplicates());
        assert forall|l: i8| labs.contains(l) <==> #[trigger] label_count(ts, l) >= 1 by {
            if labs.contains(l) {
                let k = choose|k: int| 0 <= k < labs.len() && labs[k] == l;
                assert(tab@[k].label == l);
                assert(tab_has(tab@, l));
            }
            if label_count(ts, l) >= 1 {
                let k = choose|k: int| 0 <= k < tab@.len() && (#[trigger] tab@[k]).label == l;
                assert(labs[k] == l);
            }
        }
        assert(label_listing(ts, labs));
    }
    if tab.len() > 64 {
        return Err(EncodeError::TooManyLegs);
    }
    let sorted = sort_leg_table(tab);
    let mut legs_indices: Vec<i8> = Vec::new();
    let mut legs_dim: Vec<u64> = Vec::new();
    let mut k: usize = 0;
    while k < sorted.len()
        invariant
            k <= sorted@.len(),
            legs_indices@.len() == k,
            legs_dim@.len() == k,
            forall|k2: int|
                0 <= k2 < k ==> #[trigger] legs_indices@[k2] == sorted@[k2].label
                    && legs_dim@[k2] == sorted@[k2].dim,
        decreases sorted.len() - k,
    {
        legs_indices.push(sorted[k].label);
        legs_dim.push(sorted[k].dim);
        k = k + 1;
    }
    let ghost li = legs_indices@;
    let ghost ld = legs_dim@;
    proof {
        // the sorted labels are still a listing of the input's labels
        assert forall|l: i8| li.contains(l) <==> #[trigger] label_count(ts, l) >= 1 by {
            if li.contains(l) {
                let p = choose|p: int| 0 <= p < li.len() && li[p] == l;
                assert(sorted@[p].label == l);
                assert(tab_has(sorted@, l));
            }
            if label_count(ts, l) >= 1 {
                assert(tab_has(sorted@, l));
                let p = choose|p: int| 0 <= p < sorted@.len() && (#[trigger] sorted@[p]).label
                    == l;
                assert(li[p] == l);
            }
        }
        assert forall|k1: int, k2: int|
            0 <= k1 < li.len() && 0 <= k2 < li.len() && k1 != k2 implies li[k1] != li[k2] by {
            assert(li[k1] == sorted@[k1].label && li[k2] == sorted@[k2].label);
        }
        assert(li.no_duplicates());
        // dimensions: every row is an input row, so its props carry over
        assert forall|p: int, t: int, q: int|
            #![trigger li[p], ts[t].legs@[q]]
            0 <= p < li.len() && 0 <= t < ts.len() && 0 <= q < ts[t].legs@.len() && q < ts[
            t
        ].shape@.len() && ts[t].legs@[q] == li[p] implies ts[t].shape@[q] == ld[p] by {
            assert(row_in(tab@, sorted@[p]));
            let k2 = choose|k2: int| 0 <= k2 < tab@.len() && #[trigger] tab@[k2] == sorted@[p];
            assert(entry_props(ts, tab@[k2]));
        }
        assert forall|p: int| 0 <= p < ld.len() implies #[trigger] ld[p] >= 2 by {
            assert(row_in(tab@, sorted@[p]));
            let k2 = choose|k2: int| 0 <= k2 < tab@.len() && #[trigger] tab@[k2] == sorted@[p];
            assert(entry_props(ts, tab@[k2]));
            let (t2, q2) = choose|t2: int, q2: int|
                0 <= t2 < ts.len() && 0 <= q2 < ts[t2].legs@.len() && q2 < ts[t2].shape@.len()
                    && ts[t2].legs@[q2] == tab@[k2].label && ts[t2].shape@[q2] == tab@[k2].dim;
            assert(ts[t2].shape@[q2] >= 2);
        }
        assert(dims_ok(ld));
        // sorted rows give the label order
        assert forall|p1: int, p2: int|
            #![trigger li[p1], li[p2]]
            0 <= p1 < p2 < li.len() implies label_le(ts, li[p1], li[p2]) by {
            assert(entry_le(sorted@[p1], sorted@[p2]));
            assert(row_in(tab@, sorted@[p1]));
            assert(row_in(tab@, sorted@[p2]));
            let a2 = choose|a2: int| 0 <= a2 < tab@.len() && #[trigger] tab@[a2] == sorted@[p1];
            let b2 = choose|b2: int| 0 <= b2 < tab@.len() && #[trigger] tab@[b2] == sorted@[p2];
            assert(entry_props(ts, tab@[a2]));
            assert(entry_props(ts, tab@[b2]));
        }
    }
    let mut tensor_repr: Vec<u64> = Vec::new();
    let mut t: usize = 0;
    while t < tensors.len()
        invariant
            ts == tensors@,
            li == legs_indices@,
            li.no_duplicates(),
            li.len() <= 64,
            forall|l: i8| li.contains(l) <==> #[trigger] label_count(ts, l) >= 1,
            t <= ts.len(),
            tensor_repr@.len() == t,
            forall|t2: int, b: u64|
                0 <= t2 < t ==> (#[trigger] bit_set(tensor_repr@[t2], b) <==> (b < li.len()
                    && count_in(ts[t2].legs@, li[b as int]) >= 1)),
        decreases tensors.len() - t,
    {
        proof {
            assert forall|q: int|
                0 <= q < ts[t as int].legs@.len() implies li.contains(
                #[trigger] ts[t as int].legs@[q],
            ) by {
                lemma_pos_count_in(ts[t as int].legs@, q);
                lemma_label_count_pos(ts, t as int, ts[t as int].legs@[q]);
            }
        }
        let m = tensor_mask(&tensors[t], &legs_indices);
        tensor_repr.push(m);
        t = t + 1;
    }
    let ghost tr = tensor_repr@;
    proof {
        // per-bit carrier counts
        assert forall|b: u64| b < li.len() implies #[trigger] occ(tr, b) == label_count(
            ts,
            li[b as int],
        ) by {
            assert forall|t2: int|
                0 <= t2 < ts.len() implies count_in((#[trigger] ts[t2]).legs@, li[b as int])
                <= 1 by {
                lemma_count_in_nodup(ts[t2].legs@, li[b as int]);
            }
            lemma_occ_from_bits(ts, tr, li[b as int], b);
        }
        assert forall|b: u64| b >= li.len() implies #[trigger] occ(tr, b) == 0 by {
            lemma_occ_zero_bits(tr, b);
        }
        assert forall|b: u64| #[trigger] occ(tr, b) <= 2 by {
            if (b as int) < li.len() {
                assert(occ(tr, b) == label_count(ts, li[b as int]));
            } else {
                assert(occ(tr, b) == 0);
            }
        }
    }
    if !is_connex(&tensor_repr) {
        proof {
            lemma_connectivity_transfer(ts, li, tr);
        }
        return Err(EncodeError::NotConnected);
    }
    proof {
        lemma_connectivity_transfer(ts, li, tr);
    }
    Ok((legs_indices, legs_dim, tensor_repr))
}

} // verus!
