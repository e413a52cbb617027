//! Greedy search: from the root, repeatedly step to the cheapest child until
//! every closed leg is contracted. The result seeds the exhaustive search's
//! pruning bound.

use vstd::prelude::*;
use crate::bits::{
    bit_set, closed_of, dims_ok, lemma_bit_set_ops, lemma_pop_submask_le, lemma_submask_le,
    mask_size, occ, or_of, pop, sum_sizes, xor_of,
};
use crate::network::{
    copy_masks, is_child, lemma_child_id_grows, lemma_wf_id_in_closed, make_flags, net_wf,
    occ_le_two, sat64, step_cost, step_ok, tn_inv, TensorNetwork,
};

verus! {

/// A fatal failure of a search.
#[derive(Debug, PartialEq, Eq)]
pub enum SearchError {
    /// Some input tensor's size does not fit in the cost word, so not even
    /// the root can be sized.
    RootSizeOverflow,
    /// A state short of full contraction had no child: every pair either
    /// shares no leg or overflows the cost word.
    NoContractibleStep,
}

/// A root state over the tensors `t0`: nothing contracted yet, cost zero,
/// memory seeded with the total input size. `allows` is the initial value of
/// every outer-product flag (the greedy pass switches the diagnostic off).
pub open spec fn root_matches(
    dims: Seq<u64>,
    t0: Seq<u64>,
    st: TensorNetwork,
    allows: bool,
) -> bool {
    &&& st.cpu == 0
    &&& st.mem == sat64(sum_sizes(dims, t0))
    &&& st.id == 0
    &&& st.parent == 0
    &&& st.tensors@ == t0
    &&& st.allows_outer@.len() == t0.len()
    &&& forall|k: int| 0 <= k < t0.len() ==> st.allows_outer@[k] == allows
}

/// One greedy step: a child of minimum cost among all contractible pairs.
pub open spec fn greedy_step(dims: Seq<u64>, p: TensorNetwork, c: TensorNetwork) -> bool {
    &&& is_child(dims, p, c)
    &&& forall|i: int, j: int|
        #[trigger] step_ok(dims, p, i, j) ==> c.cpu <= p.cpu + step_cost(
            dims,
            p.tensors@[i],
            p.tensors@[j],
        )
}

/// A chain of greedy steps from the root over `t0` that reaches full
/// contraction: every state but the last is non-terminal, every step is a
/// cheapest child, and the last state has contracted every closed leg.
pub open spec fn greedy_run(dims: Seq<u64>, t0: Seq<u64>, chain: Seq<TensorNetwork>) -> bool {
    &&& chain.len() >= 1
    &&& root_matches(dims, t0, chain[0], false)
    &&& forall|k: int|
        0 <= k < chain.len() - 1 ==> #[trigger] greedy_step(dims, chain[k], chain[k + 1])
    &&& forall|k: int| 0 <= k < chain.len() - 1 ==> (#[trigger] chain[k]).id != closed_of(t0)
    &&& chain.last().id == closed_of(t0)
}

/// A chain of greedy steps whose last state is not fully contracted and has
/// no contractible pair at all: the greedy search is stuck.
pub open spec fn stuck_run(dims: Seq<u64>, t0: Seq<u64>, chain: Seq<TensorNetwork>) -> bool {
    &&& chain.len() >= 1
    &&& root_matches(dims, t0, chain[0], false)
    &&& forall|k: int|
        0 <= k < chain.len() - 1 ==> #[trigger] greedy_step(dims, chain[k], chain[k + 1])
    &&& forall|k: int| 0 <= k < chain.len() - 1 ==> (#[trigger] chain[k]).id != closed_of(t0)
    &&& chain.last().id != closed_of(t0)
    &&& forall|i: int, j: int| !step_ok(dims, chain.last(), i, j)
}

/// The identities along a chain of states.
pub open spec fn ids_of(chain: Seq<TensorNetwork>) -> Seq<u64> {
    chain.map_values(|st: TensorNetwork| st.id)
}

/// What a successful greedy search returns: the visited identities and the
/// terminal state of some greedy run.
pub open spec fn greedy_post(
    dims: Seq<u64>,
    t0: Seq<u64>,
    ids: Seq<u64>,
    tn: TensorNetwork,
) -> bool {
    &&& exists|chain: Seq<TensorNetwork>|
        {
            &&& #[trigger] greedy_run(dims, t0, chain)
            &&& chain.last() == tn
            &&& ids == ids_of(chain)
        }
    &&& net_wf(dims, t0, tn)
    &&& tn.id == closed_of(t0)
    &&& forall|k: int| 0 <= k < t0.len() ==> mask_size(dims, #[trigger] t0[k]) <= u64::MAX
}

/// Why a search failed, stated over the input alone.
pub open spec fn search_failed(dims: Seq<u64>, t0: Seq<u64>, e: SearchError) -> bool {
    match e {
        SearchError::RootSizeOverflow => exists|k: int|
            0 <= k < t0.len() && mask_size(dims, #[trigger] t0[k]) > u64::MAX,
        SearchError::NoContractibleStep => exists|chain: Seq<TensorNetwork>|
            #[trigger] stuck_run(dims, t0, chain),
    }
}


/// A child that is no costlier than every generated child is a greedy step:
/// the generator produces a child for every contractible pair.
proof fn lemma_pick_min(
    dims: Seq<u64>,
    p: TensorNetwork,
    pre: Seq<TensorNetwork>,
    best: int,
    child: TensorNetwork,
)
    requires
        0 <= best < pre.len(),
        child == pre[best],
        forall|k: int| 0 <= k < pre.len() ==> is_child(dims, p, #[trigger] pre[k]),
        forall|i: int, j: int|
            #[trigger] step_ok(dims, p, i, j) ==> exists|kk: int|
                0 <= kk < pre.len() && crate::network::child_matches(
                    dims,
                    p,
                    i,
                    j,
                    #[trigger] pre[kk],
                ),
        forall|k: int| 0 <= k < pre.len() ==> child.cpu <= (#[trigger] pre[k]).cpu,
    ensures
        greedy_step(dims, p, child),
{
    assert forall|i: int, j: int| #[trigger] step_ok(dims, p, i, j) implies child.cpu <= p.cpu
        + step_cost(dims, p.tensors@[i], p.tensors@[j]) by {
        let kk = choose|kk: int|
            0 <= kk < pre.len() && crate::network::child_matches(dims, p, i, j, #[trigger] pre[kk]);
        assert(pre[kk].cpu == p.cpu + step_cost(dims, p.tensors@[i], p.tensors@[j]));
        assert(child.cpu <= pre[kk].cpu);
    }
}

/// Extending a greedy prefix by one more greedy step keeps it a greedy
/// prefix.
proof fn lemma_chain_extend(dims: Seq<u64>, t0: Seq<u64>, prev: Seq<TensorNetwork>, c: TensorNetwork)
    requires
        prev.len() >= 1,
        root_matches(dims, t0, prev[0], false),
        forall|k: int|
            0 <= k < prev.len() - 1 ==> #[trigger] greedy_step(dims, prev[k], prev[k + 1]),
        forall|k: int| 0 <= k < prev.len() - 1 ==> (#[trigger] prev[k]).id != closed_of(t0),
        prev.last().id != closed_of(t0),
        greedy_step(dims, prev.last(), c),
    ensures
        prev.push(c).len() >= 1,
        root_matches(dims, t0, prev.push(c)[0], false),
        forall|k: int|
            0 <= k < prev.push(c).len() - 1 ==> #[trigger] greedy_step(
                dims,
                prev.push(c)[k],
                prev.push(c)[k + 1],
            ),
        forall|k: int|
            0 <= k < prev.push(c).len() - 1 ==> (#[trigger] prev.push(c)[k]).id != closed_of(t0),
        prev.push(c).last() == c,
        ids_of(prev.push(c)) == ids_of(prev).push(c.id),
{
    let ch = prev.push(c);
    assert(ch[prev.len() - 1] == prev.last());
    assert(ch.last() == c);
    assert forall|k: int| 0 <= k < ch.len() - 1 implies #[trigger] greedy_step(
        dims,
        ch[k],
        ch[k + 1],
    ) by {
        if k < prev.len() - 1 {
            assert(ch[k] == prev[k]);
            assert(ch[k + 1] == prev[k + 1]);
            assert(greedy_step(dims, prev[k], prev[k + 1]));
        } else {
            assert(ch[k] == prev.last());
            assert(ch[k + 1] == c);
        }
    }
    assert forall|k: int| 0 <= k < ch.len() - 1 implies (#[trigger] ch[k]).id != closed_of(t0) by {
        if k < prev.len() - 1 {
            assert(ch[k] == prev[k]);
        } else {
            assert(ch[k] == prev.last());
        }
    }
    assert(ids_of(ch) =~= ids_of(prev).push(c.id));
}


/// Index of a cheapest element of a nonempty list of states.
fn min_cpu_index(children: &Vec<TensorNetwork>) -> (best: usize)
    requires
        children@.len() >= 1,
    ensures
        best < children@.len(),
        forall|k: int| 0 <= k < children@.len() ==> children@[best as int].cpu <= (#[trigger] children@[k]).cpu,
{
    let mut best_idx: usize = 0;
    let mut q: usize = 1;
    while q < children.len()
        invariant
            best_idx < children@.len(),
            q <= children@.len(),
            forall|k: int|
                0 <= k < q ==> children@[best_idx as int].cpu <= (#[trigger] children@[k]).cpu,
        decreases children.len() - q,
    {
        if children[q].cpu < children[best_idx].cpu {
            best_idx = q;
        }
        q = q + 1;
    }
    best_idx
}

/// The cheapest child of a state, or `None` when no pair can be contracted.
#[verifier::spinoff_prover]
#[verifier::rlimit(100)]
fn cheapest_child(p: &TensorNetwork, legs_dim: &Vec<u64>) -> (r: Option<TensorNetwork>)
    requires
        dims_ok(legs_dim@),
        tn_inv(legs_dim@, *p),
    ensures
        match r {
            Some(c) => greedy_step(legs_dim@, *p, c),
            None => forall|i: int, j: int| !step_ok(legs_dim@, *p, i, j),
        },
{
    let ghost dims = legs_dim@;
    let children = p.generate_children(legs_dim);
    if children.len() == 0 {
        proof {
            assert forall|i: int, j: int| !step_ok(dims, *p, i, j) by {
                if step_ok(dims, *p, i, j) {
                    let kk = choose|kk: int|
                        0 <= kk < children@.len() && crate::network::child_matches(
                            dims,
                            *p,
                            i,
                            j,
                            #[trigger] children@[kk],
                        );
                    assert(false);
                }
            }
        }
        return None;
    }
    let best_idx = min_cpu_index(&children);
    let mut children = children;
    let ghost pre = children@;
    let child = children.swap_remove(best_idx);
    proof {
        lemma_pick_min(dims, *p, pre, best_idx as int, child);
    }
    Some(child)
}

/// Greedy contraction: step to the cheapest child until the identity holds
/// every closed leg. Returns the sequence of identities visited (starting at
/// 0) and the terminal state.
#[verifier::rlimit(100)]
pub fn greedy_search(legs_dim: &Vec<u64>, tensor_repr: Vec<u64>) -> (r: Result<
    (Vec<u64>, TensorNetwork),
    SearchError,
>)
    requires
        dims_ok(legs_dim@),
        occ_le_two(tensor_repr@),
    ensures
        match r {
            Ok(p) => greedy_post(legs_dim@, tensor_repr@, p.0@, p.1),
            Err(e) => search_failed(legs_dim@, tensor_repr@, e),
        },
{
    let ghost t0 = tensor_repr@;
    let ghost dims = legs_dim@;
    let all_legs = or_of(&tensor_repr);
    let open_legs = xor_of(&tensor_repr);
    let max_tn = all_legs ^ open_legs;
    let root_tensors = copy_masks(&tensor_repr);
    let mut tn = match TensorNetwork::new(legs_dim, root_tensors) {
        Some(t) => t,
        None => {
            return Err(SearchError::RootSizeOverflow);
        },
    };
    tn.allows_outer = make_flags(tn.tensors.len(), false);
    let mut sequence_repr: Vec<u64> = Vec::new();
    sequence_repr.push(0);
    let ghost mut chain: Seq<TensorNetwork> = seq![tn];
    proof {
        assert forall|b: u64|
            occ(t0, b) == occ(tn.tensors@, b) + (if bit_set(tn.id, b) {
                2nat
            } else {
                0nat
            }) by {
            lemma_bit_set_ops(0, 0, b);
        }
        assert(net_wf(dims, t0, tn));
        lemma_wf_id_in_closed(dims, t0, tn);
        assert(sequence_repr@ =~= ids_of(chain));
    }
    while tn.id < max_tn
        invariant
            dims_ok(dims),
            dims == legs_dim@,
            t0 == tensor_repr@,
            occ_le_two(t0),
            max_tn == closed_of(t0),
            net_wf(dims, t0, tn),
            tn.id & max_tn == tn.id,
            chain.len() >= 1,
            chain.last() == tn,
            root_matches(dims, t0, chain[0], false),
            forall|k: int|
                0 <= k < chain.len() - 1 ==> #[trigger] greedy_step(dims, chain[k], chain[k + 1]),
            forall|k: int| 0 <= k < chain.len() - 1 ==> (#[trigger] chain[k]).id != closed_of(t0),
            sequence_repr@ == ids_of(chain),
            forall|k: int| 0 <= k < t0.len() ==> mask_size(dims, #[trigger] t0[k]) <= u64::MAX,
        decreases pop(max_tn) - pop(tn.id),
    {
        let child = match cheapest_child(&tn, legs_dim) {
            Some(c) => c,
            None => {
                proof {
                    assert(stuck_run(dims, t0, chain));
                }
                return Err(SearchError::NoContractibleStep);
            },
        };
        proof {
            lemma_chain_extend(dims, t0, chain, child);
            lemma_child_id_grows(dims, t0, tn, child);
            lemma_wf_id_in_closed(dims, t0, child);
            lemma_pop_submask_le(child.id, max_tn);
        }
        tn = child;
        sequence_repr.push(tn.id);
        proof {
            chain = chain.push(tn);
            assert(sequence_repr@ =~= ids_of(chain));
        }
    }
    proof {
        lemma_submask_le(tn.id, max_tn);
        assert(tn.id == closed_of(t0));
        assert(greedy_run(dims, t0, chain));
    }
    Ok((sequence_repr, tn))
}

} // verus!
