//! Per-generation state tables for the exhaustive search: a list of candidate
//! states of one generation, indexed by state identity through an FNV hash
//! map. Hashing small integer keys is on the search's hot path, which is why
//! the index uses the FNV hasher rather than std's seeded default.

use vstd::prelude::*;
use crate::network::{net_wf, TensorNetwork};
use crate::bits::sum_sizes;
use crate::network::{is_child, sat64};
use crate::greedy::ids_of;

verus! {

/// fnv's hasher type, declared so that the hash map built over it can stand
/// in a field.
#[verifier::external_type_specification]
#[verifier::external_body]
pub struct ExFnvHasher(fnv::FnvHasher);

/// std's `BuildHasherDefault`, which vstd leaves unspecified.
#[verifier::external_type_specification]
#[verifier::external_body]
#[verifier::reject_recursive_types(H)]
pub struct ExBuildHasherDefault<H>(std::hash::BuildHasherDefault<H>);

/// Relies on std's `HashMap::insert` (fnv's `FnvHashMap` is std's `HashMap`
/// with the FNV hasher, a deterministic, lawful hasher): afterwards the map
/// takes `k` to `v` and is unchanged elsewhere.
#[verifier::external_body]
fn fnv_insert(m: &mut fnv::FnvHashMap<u64, usize>, k: u64, v: usize)
    ensures
        final(m)@ == old(m)@.insert(k, v),
{
    m.insert(k, v);
}

/// Relies on std's `HashMap::get`: the value the map takes `k` to, if any.
#[verifier::external_body]
fn fnv_get(m: &fnv::FnvHashMap<u64, usize>, k: u64) -> (r: Option<usize>)
    ensures
        match r {
            Some(v) => m@.contains_key(k) && m@[k] == v,
            None => !m@.contains_key(k),
        },
{
    m.get(&k).copied()
}

/// A state reached by the exhaustive search, together with the identities
/// visited on the way to it and, in ghost form, the chain of states itself.
pub struct Candidate {
    pub state: TensorNetwork,
    pub path: Vec<u64>,
    pub chain: Ghost<Seq<TensorNetwork>>,
}

/// A chain of contraction steps that starts at the root over `t0`.
pub open spec fn step_chain(dims: Seq<u64>, t0: Seq<u64>, chain: Seq<TensorNetwork>) -> bool {
    &&& chain.len() >= 1
    &&& chain[0].cpu == 0
    &&& chain[0].mem == sat64(sum_sizes(dims, t0))
    &&& chain[0].id == 0
    &&& chain[0].parent == 0
    &&& chain[0].tensors@ == t0
    &&& forall|k: int|
        0 <= k < chain.len() - 1 ==> #[trigger] is_child(dims, chain[k], chain[k + 1])
}

/// A candidate is sound: its ghost chain really leads from the root to its
/// state and its recorded path lists that chain's identities.
pub open spec fn cand_ok(dims: Seq<u64>, t0: Seq<u64>, c: Candidate) -> bool {
    &&& step_chain(dims, t0, c.chain@)
    &&& c.chain@.last() == c.state
    &&& c.path@ == ids_of(c.chain@)
    &&& net_wf(dims, t0, c.state)
}

/// One generation of the search: the candidates of one popcount, with a hash
/// index from state identity to position. No two candidates share an
/// identity.
pub struct GenerationTable {
    pub cands: Vec<Candidate>,
    pub index: fnv::FnvHashMap<u64, usize>,
}

impl GenerationTable {
    /// The index is a bijection between stored identities and positions.
    pub open spec fn inv(self) -> bool {
        &&& forall|k: int|
            0 <= k < self.cands@.len() ==> {
                &&& self.index@.contains_key((#[trigger] self.cands@[k]).state.id)
                &&& self.index@[self.cands@[k].state.id] == k
            }
        &&& forall|id: u64|
            self.index@.contains_key(id) ==> {
                &&& (#[trigger] self.index@[id]) < self.cands@.len()
                &&& self.cands@[self.index@[id] as int].state.id == id
            }
    }

    pub fn empty() -> (r: GenerationTable)
        ensures
            r.inv(),
            r.cands@.len() == 0,
    {
        GenerationTable { cands: Vec::new(), index: fnv::FnvHashMap::default() }
    }

    /// Position of the candidate with the given identity, if one is stored.
    pub fn find(&self, id: u64) -> (r: Option<usize>)
        requires
            self.inv(),
        ensures
            match r {
                Some(k) => k < self.cands@.len() && self.cands@[k as int].state.id == id,
                None => forall|k: int|
                    0 <= k < self.cands@.len() ==> (#[trigger] self.cands@[k]).state.id != id,
            },
    {
        fnv_get(&self.index, id)
    }

    /// Store a candidate whose identity is not yet present.
    pub fn push_new(&mut self, c: Candidate)
        requires
            old(self).inv(),
            forall|k: int|
                0 <= k < old(self).cands@.len() ==> (#[trigger] old(self).cands@[k]).state.id
                    != c.state.id,
        ensures
            final(self).inv(),
            final(self).cands@ == old(self).cands@.push(c),
    {
        let pos = self.cands.len();
        fnv_insert(&mut self.index, c.state.id, pos);
        self.cands.push(c);
    }

    /// Overwrite the candidate at position `k` with one of the same identity.
    pub fn replace_at(&mut self, k: usize, c: Candidate)
        requires
            old(self).inv(),
            k < old(self).cands@.len(),
            c.state.id == old(self).cands@[k as int].state.id,
        ensures
            final(self).inv(),
            final(self).cands@ == old(self).cands@.update(k as int, c),
    {
        self.cands.set(k, c);
    }

    pub fn len(&self) -> (n: usize)
        ensures
            n == self.cands@.len(),
    {
        self.cands.len()
    }
}

} // verus!
