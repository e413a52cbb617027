//! Exhaustive search: a branch-and-bound dynamic program over the lattice of
//! contracted-leg subsets, grouped by generation (popcount of the identity),
//! pruned by the greedy bound, keeping per identity only the cheapest state
//! found so far.

use vstd::prelude::*;
use crate::bits::{
    closed_of, dims_ok, lemma_pop_submask_eq, lemma_pop_submask_le, or_of, pop, popcount, xor_of,
};
use crate::network::{
    copy_masks, is_child, lemma_child_id_grows, lemma_wf_id_in_closed, net_wf, occ_le_two,
    TensorNetwork,
};
use crate::greedy::{
    greedy_post, greedy_run, greedy_search, greedy_step, ids_of, search_failed, SearchError,
};
use crate::table::{cand_ok, step_chain, Candidate, GenerationTable};

verus! {

/// What a successful exhaustive search returns: a chain of contraction steps
/// from the root realizes the returned identity sequence and ends exactly in
/// the returned state; that state is fully contracted; and it costs no more
/// than a greedy run over the same input.
pub open spec fn exhaustive_post(
    dims: Seq<u64>,
    t0: Seq<u64>,
    ids: Seq<u64>,
    best: TensorNetwork,
) -> bool {
    &&& exists|chain: Seq<TensorNetwork>|
        {
            &&& #[trigger] step_chain(dims, t0, chain)
            &&& chain.last() == best
            &&& ids == ids_of(chain)
        }
    &&& best.id == closed_of(t0)
    &&& net_wf(dims, t0, best)
    &&& exists|gids: Seq<u64>, g: TensorNetwork|
        #[trigger] greedy_post(dims, t0, gids, g) && best.cpu <= g.cpu
}

/// Every stored candidate is sound and sits in the table of its generation.
pub open spec fn tables_ok(dims: Seq<u64>, t0: Seq<u64>, tabs: Seq<GenerationTable>) -> bool {
    &&& forall|g: int| 0 <= g < tabs.len() ==> (#[trigger] tabs[g]).inv()
    &&& forall|g: int, k: int|
        0 <= g < tabs.len() && 0 <= k < tabs[g].cands@.len() ==> {
            &&& cand_ok(dims, t0, #[trigger] tabs[g].cands@[k])
            &&& pop(tabs[g].cands@[k].state.id) == g
        }
}

/// The loop invariant of the search: sound tables and a sound incumbent that
/// is fully contracted.
pub open spec fn search_inv(
    dims: Seq<u64>,
    t0: Seq<u64>,
    closed: u64,
    n_c: int,
    tabs: Seq<GenerationTable>,
    bchain: Seq<TensorNetwork>,
    bpath: Seq<u64>,
    best: TensorNetwork,
) -> bool {
    &&& dims_ok(dims)
    &&& occ_le_two(t0)
    &&& closed == closed_of(t0)
    &&& n_c == pop(closed)
    &&& tabs.len() == n_c
    &&& tables_ok(dims, t0, tabs)
    &&& step_chain(dims, t0, bchain)
    &&& bchain.last() == best
    &&& bpath == ids_of(bchain)
    &&& best.id == closed
    &&& net_wf(dims, t0, best)
}

/// A greedy run is in particular a chain of contraction steps.
proof fn lemma_greedy_is_step_chain(dims: Seq<u64>, t0: Seq<u64>, chain: Seq<TensorNetwork>)
    requires
        greedy_run(dims, t0, chain),
    ensures
        step_chain(dims, t0, chain),
{
    assert forall|k: int| 0 <= k < chain.len() - 1 implies #[trigger] is_child(
        dims,
        chain[k],
        chain[k + 1],
    ) by {
        assert(greedy_step(dims, chain[k], chain[k + 1]));
    }
}

/// Extending a chain of steps by one more child keeps it a chain of steps.
proof fn lemma_step_chain_extend(
    dims: Seq<u64>,
    t0: Seq<u64>,
    prev: Seq<TensorNetwork>,
    c: TensorNetwork,
)
    requires
        step_chain(dims, t0, prev),
        is_child(dims, prev.last(), c),
    ensures
        step_chain(dims, t0, prev.push(c)),
        prev.push(c).last() == c,
        ids_of(prev.push(c)) == ids_of(prev).push(c.id),
{
    let ch = prev.push(c);
    assert(ch[prev.len() - 1] == prev.last());
    assert(ch.last() == c);
    assert forall|k: int| 0 <= k < ch.len() - 1 implies #[trigger] is_child(
        dims,
        ch[k],
        ch[k + 1],
    ) by {
        if k < prev.len() - 1 {
            assert(ch[k] == prev[k]);
            assert(ch[k + 1] == prev[k + 1]);
            assert(is_child(dims, prev[k], prev[k + 1]));
        } else {
            assert(ch[k] == prev.last());
            assert(ch[k + 1] == c);
        }
    }
    assert(ids_of(ch) =~= ids_of(prev).push(c.id));
}

/// Exhaustive search for the cheapest contraction sequence. Runs the greedy
/// search first as an upper bound, then walks the generations in increasing
/// popcount order, expanding every stored state that is still cheaper than
/// the incumbent and keeping per identity only the cheapest state. Returns
/// the identity sequence of the winning chain and its terminal state.
pub fn exhaustive_search(legs_dim: &Vec<u64>, tensor_repr: Vec<u64>) -> (r: Result<
    (Vec<u64>, TensorNetwork),
    SearchError,
>)
    requires
        dims_ok(legs_dim@),
        occ_le_two(tensor_repr@),
    ensures
        match r {
            Ok(p) => exhaustive_post(legs_dim@, tensor_repr@, p.0@, p.1),
            Err(e) => search_failed(legs_dim@, tensor_repr@, e),
        },
{
    let ghost dims = legs_dim@;
    let ghost t0 = tensor_repr@;
    // Greedy pass: a complete contraction whose cost prunes the search.
    let greedy_input = copy_masks(&tensor_repr);
    let (greedy_seq, greedy_tn) = match greedy_search(legs_dim, greedy_input) {
        Ok(p) => p,
        Err(e) => {
            return Err(e);
        },
    };
    let ghost g0 = greedy_tn;
    let ghost g0_ids = greedy_seq@;
    let ghost gchain = choose|chain: Seq<TensorNetwork>|
        {
            &&& #[trigger] greedy_run(dims, t0, chain)
            &&& chain.last() == g0
            &&& g0_ids == ids_of(chain)
        };
    proof {
        lemma_greedy_is_step_chain(dims, t0, gchain);
    }
    let all_legs = or_of(&tensor_repr);
    let open_legs = xor_of(&tensor_repr);
    let closed = all_legs ^ open_legs;
    let n_c_words = popcount(closed);
    let n_c = n_c_words as usize;
    if n_c == 0 {
        return Ok((greedy_seq, greedy_tn));
    }
    // Root state of the exhaustive pass.
    let root_tensors = copy_masks(&tensor_repr);
    let root = match TensorNetwork::new(legs_dim, root_tensors) {
        Some(t) => t,
        None => {
            return Err(SearchError::RootSizeOverflow);
        },
    };
    proof {
        assert forall|b: u64|
            crate::bits::occ(t0, b) == crate::bits::occ(root.tensors@, b) + (if crate::bits::bit_set(
                root.id,
                b,
            ) {
                2nat
            } else {
                0nat
            }) by {
            crate::bits::lemma_bit_set_ops(0, 0, b);
        }
        assert(net_wf(dims, t0, root));
    }
    let mut root_path: Vec<u64> = Vec::new();
    root_path.push(0);
    let ghost root_chain: Seq<TensorNetwork> = seq![root];
    let root_cand = Candidate { state: root, path: root_path, chain: Ghost(root_chain) };
    proof {
        assert(root_cand.path@ =~= ids_of(root_chain));
        assert(cand_ok(dims, t0, root_cand));
    }
    let mut tables: Vec<GenerationTable> = Vec::new();
    let mut first = GenerationTable::empty();
    first.push_new(root_cand);
    tables.push(first);
    let mut gi: usize = 1;
    while gi < n_c
        invariant
            dims == legs_dim@,
            t0 == tensor_repr@,
            1 <= gi <= n_c,
            tables@.len() == gi,
            tables_ok(dims, t0, tables@),
        decreases n_c - gi,
    {
        tables.push(GenerationTable::empty());
        gi = gi + 1;
    }
    let mut best = greedy_tn;
    let mut best_path = greedy_seq;
    let ghost mut best_chain: Seq<TensorNetwork> = gchain;
    let mut generation: usize = 0;
    while generation < n_c
        invariant
            dims == legs_dim@,
            t0 == tensor_repr@,
            generation <= n_c,
            n_c == pop(closed),
            search_inv(dims, t0, closed, n_c as int, tables@, best_chain, best_path@, best),
            best.cpu <= g0.cpu,
            greedy_post(dims, t0, g0_ids, g0),
        decreases n_c - generation,
    {
        let m = tables[generation].len();
        let mut idx: usize = 0;
        while idx < m
            invariant
                dims == legs_dim@,
                t0 == tensor_repr@,
                generation < n_c,
                n_c == pop(closed),
                m == tables@[generation as int].cands@.len(),
                idx <= m,
                search_inv(dims, t0, closed, n_c as int, tables@, best_chain, best_path@, best),
                best.cpu <= g0.cpu,
                greedy_post(dims, t0, g0_ids, g0),
            decreases m - idx,
        {
            let parent_cpu = tables[generation].cands[idx].state.cpu;
            if parent_cpu < best.cpu {
                let ghost parent_cand = tables@[generation as int].cands@[idx as int];
                let ghost parent_state = parent_cand.state;
                let ghost parent_chain = parent_cand.chain@;
                let parent_path = copy_masks(&tables[generation].cands[idx].path);
                let mut children = tables[generation].cands[idx].state.generate_children(legs_dim);
                proof {
                    assert(cand_ok(dims, t0, parent_cand));
                    assert(pop(parent_state.id) == generation as int);
                }
                while children.len() > 0
                    invariant
                        dims == legs_dim@,
                        t0 == tensor_repr@,
                        generation < n_c,
                        n_c == pop(closed),
                        m == tables@[generation as int].cands@.len(),
                        idx < m,
                        search_inv(
                            dims,
                            t0,
                            closed,
                            n_c as int,
                            tables@,
                            best_chain,
                            best_path@,
                            best,
                        ),
                        best.cpu <= g0.cpu,
                        greedy_post(dims, t0, g0_ids, g0),
                        forall|k: int|
                            0 <= k < children@.len() ==> is_child(
                                dims,
                                parent_state,
                                #[trigger] children@[k],
                            ),
                        step_chain(dims, t0, parent_chain),
                        parent_chain.last() == parent_state,
                        parent_path@ == ids_of(parent_chain),
                        net_wf(dims, t0, parent_state),
                        pop(parent_state.id) == generation as int,
                    decreases children.len(),
                {
                    let child = match children.pop() {
                        Some(c) => c,
                        None => {
                            break ;
                        },
                    };
                    if child.cpu < best.cpu {
                        proof {
                            lemma_child_id_grows(dims, t0, parent_state, child);
                            lemma_wf_id_in_closed(dims, t0, child);
                            lemma_pop_submask_le(child.id, closed);
                            lemma_step_chain_extend(dims, t0, parent_chain, child);
                        }
                        let child_cpu = child.cpu;
                        let child_id = child.id;
                        let cg_words = popcount(child.id);
                        let cg = cg_words as usize;
                        let mut cpath = copy_masks(&parent_path);
                        cpath.push(child.id);
                        let ghost cchain = parent_chain.push(child);
                        let cand = Candidate { state: child, path: cpath, chain: Ghost(cchain) };
                        proof {
                            assert(cand_ok(dims, t0, cand));
                        }
                        if cg == n_c {
                            proof {
                                lemma_pop_submask_eq(child.id, closed);
                            }
                            best_path = cand.path;
                            best = cand.state;
                            proof {
                                best_chain = cchain;
                            }
                        } else {
                            let ghost pre_tables = tables@;
                            let mut tmp = GenerationTable::empty();
                            tables.set_and_swap(cg, &mut tmp);
                            match tmp.find(child_id) {
                                None => {
                                    tmp.push_new(cand);
                                },
                                Some(pos) => {
                                    if child_cpu < tmp.cands[pos].state.cpu {
                                        tmp.replace_at(pos, cand);
                                    }
                                },
                            }
                            tables.set_and_swap(cg, &mut tmp);
                            proof {
                                assert(tables@.len() == pre_tables.len());
                                assert forall|g: int, k: int|
                                    0 <= g < tables@.len() && 0 <= k
                                        < tables@[g].cands@.len() implies {
                                    &&& cand_ok(dims, t0, #[trigger] tables@[g].cands@[k])
                                    &&& pop(tables@[g].cands@[k].state.id) == g
                                } by {
                                    if g != cg as int {
                                        assert(tables@[g] == pre_tables[g]);
                                        assert(cand_ok(dims, t0, pre_tables[g].cands@[k]));
                                    } else {
                                        assert(cand_ok(dims, t0, pre_tables[g].cands@[k]) && pop(
                                            pre_tables[g].cands@[k].state.id,
                                        ) == g || tables@[g].cands@[k] == cand);
                                    }
                                }
                                assert forall|g: int|
                                    0 <= g < tables@.len() implies (#[trigger] tables@[g]).inv()
                                by {
                                    if g != cg as int {
                                        assert(tables@[g] == pre_tables[g]);
                                    }
                                }
                                assert(tables@[generation as int] == pre_tables[generation as int]);
                            }
                        }
                    }
                }
            }
            idx = idx + 1;
        }
        generation = generation + 1;
    }
    proof {
        assert(exhaustive_post(dims, t0, best_path@, best));
    }
    Ok((best_path, best))
}

} // verus!
