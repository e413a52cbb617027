//! Connectivity of the network: tensors are vertices, and two tensors are
//! adjacent when their bitmasks share a leg. A disconnected network would
//! demand outer products, which this planner refuses, so disconnected inputs
//! are rejected before any search begins.

use vstd::prelude::*;
use crate::network::make_flags;

verus! {

/// Tensors `a` and `b` of the list are distinct and share a leg.
pub open spec fn edge(ts: Seq<u64>, a: int, b: int) -> bool {
    &&& 0 <= a < ts.len()
    &&& 0 <= b < ts.len()
    &&& a != b
    &&& ts[a] & ts[b] != 0
}

/// No edge leaves the vertex set `s`.
pub open spec fn closed_under_edges(ts: Seq<u64>, s: Set<int>) -> bool {
    forall|a: int, b: int| s.contains(a) && #[trigger] edge(ts, a, b) ==> s.contains(b)
}

/// Every vertex set that contains vertex 0 and is closed under edges holds
/// all vertices: flood fill from any vertex reaches the whole network.
pub open spec fn is_connected(ts: Seq<u64>) -> bool {
    &&& ts.len() >= 1
    &&& forall|s: Set<int>|
        s.contains(0) && #[trigger] closed_under_edges(ts, s) ==> forall|k: int|
            0 <= k < ts.len() ==> s.contains(k)
}

/// Number of `true` entries.
pub open spec fn count_true(s: Seq<bool>) -> nat
    decreases s.len(),
{
    if s.len() == 0 {
        0
    } else {
        (if s[0] {
            1nat
        } else {
            0nat
        }) + count_true(s.drop_first())
    }
}

pub proof fn lemma_count_true_update(s: Seq<bool>, i: int)
    requires
        0 <= i < s.len(),
        !s[i],
    ensures
        count_true(s.update(i, true)) == count_true(s) + 1,
    decreases s.len(),
{
    let u = s.update(i, true);
    if i == 0 {
        assert(u.drop_first() =~= s.drop_first());
    } else {
        assert(u.drop_first() =~= s.drop_first().update(i - 1, true));
        lemma_count_true_update(s.drop_first(), i - 1);
    }
}

pub proof fn lemma_count_true_bound(s: Seq<bool>)
    ensures
        count_true(s) <= s.len(),
        count_true(s) == s.len() ==> forall|k: int| 0 <= k < s.len() ==> s[k],
    decreases s.len(),
{
    if s.len() > 0 {
        lemma_count_true_bound(s.drop_first());
        if count_true(s) == s.len() {
            assert(s[0]);
            assert forall|k: int| 0 <= k < s.len() implies s[k] by {
                if k > 0 {
                    assert(s.drop_first()[k - 1]);
                }
            }
        }
    }
}

/// Whether the network is connected: flood fill from the first tensor and
/// check that every tensor is reached.
pub fn is_connex(tensor_repr: &Vec<u64>) -> (r: bool)
    requires
        tensor_repr@.len() >= 1,
    ensures
        r == is_connected(tensor_repr@),
{
    let ghost tseq = tensor_repr@;
    let n = tensor_repr.len();
    let mut reached = make_flags(n, false);
    proof {
        assert(reached@ =~= Seq::new(n as nat, |k: int| false));
        lemma_count_true_of_falses(n);
        lemma_count_true_update(reached@, 0);
    }
    let mut stack: Vec<usize> = Vec::new();
    reached.set(0, true);
    stack.push(0);
    let mut count: usize = 1;
    proof {
        assert(stack@[0] == 0usize);
        assert(stack@.contains(0usize));
        assert forall|a: int, b: int|
            0 <= a < n && reached@[a] && !stack@.contains(a as usize) && #[trigger] edge(
                tseq,
                a,
                b,
            ) implies reached@[b] by {
            if a != 0 {
                assert(!reached@[a]);
            }
        }
    }
    loop
        invariant
            tseq == tensor_repr@,
            n == tseq.len(),
            1 <= n,
            reached@.len() == n,
            reached@[0],
            count == count_true(reached@),
            count <= n,
            forall|q: int| 0 <= q < stack@.len() ==> stack@[q] < n,
            forall|q: int| 0 <= q < stack@.len() ==> reached@[#[trigger] stack@[q] as int],
            forall|s: Set<int>|
                s.contains(0) && #[trigger] closed_under_edges(tseq, s) ==> forall|k: int|
                    0 <= k < n && reached@[k] ==> s.contains(k),
            forall|a: int, b: int|
                0 <= a < n && reached@[a] && !stack@.contains(a as usize) && #[trigger] edge(
                    tseq,
                    a,
                    b,
                ) ==> reached@[b],
        ensures
            stack@.len() == 0,
        decreases n - count, stack@.len(),
    {
        let ghost pre_stack = stack@;
        let t = match stack.pop() {
            Some(t) => t,
            None => {
                break ;
            },
        };
        let ghost count0 = count;
        let ghost stack0 = stack@;
        proof {
            assert(pre_stack == stack0.push(t));
        }
        let mut i: usize = 0;
        while i < n
            invariant
                tseq == tensor_repr@,
                n == tseq.len(),
                t < n,
                i <= n,
                reached@.len() == n,
                reached@[0],
                reached@[t as int],
                count == count_true(reached@),
                count <= n,
                count0 <= count,
                count == count0 ==> stack@ == stack0,
                stack0.len() <= stack@.len(),
                forall|q: int| 0 <= q < stack0.len() ==> stack@[q] == stack0[q],
                forall|q: int| 0 <= q < stack@.len() ==> stack@[q] < n,
                forall|q: int| 0 <= q < stack@.len() ==> reached@[#[trigger] stack@[q] as int],
                forall|s: Set<int>|
                    s.contains(0) && #[trigger] closed_under_edges(tseq, s) ==> forall|k: int|
                        0 <= k < n && reached@[k] ==> s.contains(k),
                forall|a: int, b: int|
                    0 <= a < n && reached@[a] && a != t && !stack@.contains(a as usize)
                        && #[trigger] edge(tseq, a, b) ==> reached@[b],
                forall|b: int| 0 <= b < i && edge(tseq, t as int, b) ==> reached@[b],
            decreases n - i,
        {
            if i != t && !reached[i] {
                if tensor_repr[t] & tensor_repr[i] != 0 {
                    proof {
                        lemma_count_true_update(reached@, i as int);
                        let upd = reached@.update(i as int, true);
                        assert forall|s: Set<int>|
                            s.contains(0) && #[trigger] closed_under_edges(tseq, s) implies (
                        forall|k: int| 0 <= k < n && upd[k] ==> s.contains(k)) by {
                            assert forall|k: int| 0 <= k < n && upd[k] implies s.contains(k) by {
                                if k == i as int {
                                    assert(s.contains(t as int));
                                    assert(edge(tseq, t as int, i as int));
                                } else {
                                    assert(reached@[k]);
                                }
                            }
                        }
                    }
                    proof {
                        lemma_count_true_bound(reached@.update(i as int, true));
                    }
                    let ghost reached_before = reached@;
                    reached.set(i, true);
                    let ghost stack_before = stack@;
                    stack.push(i);
                    count = count + 1;
                    proof {
                        assert(stack@ == stack_before.push(i));
                        assert forall|a: int, b: int|
                            0 <= a < n && reached@[a] && a != t && !stack@.contains(a as usize)
                                && #[trigger] edge(tseq, a, b) implies reached@[b] by {
                            assert(stack@[stack_before.len() as int] == i);
                            if a == i as int {
                                assert(stack@.contains(a as usize));
                                assert(false);
                            } else {
                                assert(!stack_before.contains(a as usize)) by {
                                    if stack_before.contains(a as usize) {
                                        let q = choose|q: int|
                                            0 <= q < stack_before.len() && stack_before[q] == (
                                            a as usize);
                                        assert(stack@[q] == a as usize);
                                    }
                                }
                                assert(reached_before[a]);
                                assert(reached_before[b]);
                            }
                        }
                    }
                }
            }
            i = i + 1;
        }
        proof {
            // t's neighbors are now all reached, so the popped vertex keeps
            // the closure invariant
            assert forall|a: int, b: int|
                0 <= a < n && reached@[a] && !stack@.contains(a as usize) && #[trigger] edge(
                    tseq,
                    a,
                    b,
                ) implies reached@[b] by {
                if a == t as int {
                } else {
                    assert(!stack0.contains(a as usize)) by {
                        if stack0.contains(a as usize) {
                            let q = choose|q: int|
                                0 <= q < stack0.len() && stack0[q] == a as usize;
                            assert(stack@[q] == stack0[q]);
                        }
                    }
                }
            }
            if count == count0 {
                assert(stack@.len() < pre_stack.len());
            }
        }
    }
    let r = count == n;
    proof {
        lemma_count_true_bound(reached@);
        if count == n {
            assert forall|sx: Set<int>|
                sx.contains(0) && #[trigger] closed_under_edges(tseq, sx) implies (forall|k: int|
                0 <= k < tseq.len() ==> sx.contains(k)) by {
                assert forall|k: int| 0 <= k < tseq.len() implies sx.contains(k) by {
                    assert(reached@[k]);
                }
            }
            assert(is_connected(tseq));
        } else {
            let s = Set::new(|k: int| 0 <= k < n && reached@[k]);
            assert(closed_under_edges(tseq, s)) by {
                assert forall|a: int, b: int|
                    s.contains(a) && #[trigger] edge(tseq, a, b) implies s.contains(b) by {
                    assert(reached@[b]);
                }
            }
            assert(s.contains(0));
            if is_connected(tseq) {
                lemma_exists_false(reached@);
                let k = choose|k: int| 0 <= k < reached@.len() && !reached@[k];
                assert(s.contains(k));
                assert(false);
            }
        }
    }
    r
}

/// The all-false sequence of length `n` (spec mirror of `make_flags`).
pub open spec fn make_flags_spec_zero(n: int) -> Seq<bool> {
    Seq::new(n as nat, |k: int| false)
}

pub proof fn lemma_count_true_of_falses(n: usize)
    ensures
        count_true(Seq::new(n as nat, |k: int| false)) == 0,
    decreases n,
{
    if n > 0 {
        assert(Seq::new(n as nat, |k: int| false).drop_first() =~= Seq::new(
            (n - 1) as nat,
            |k: int| false,
        ));
        lemma_count_true_of_falses((n - 1) as usize);
    }
}

pub proof fn lemma_exists_false(s: Seq<bool>)
    requires
        count_true(s) < s.len(),
    ensures
        exists|k: int| 0 <= k < s.len() && !s[k],
    decreases s.len(),
{
    if s.len() > 0 {
        if s[0] {
            lemma_exists_false(s.drop_first());
            let k = choose|k: int| 0 <= k < s.drop_first().len() && !s.drop_first()[k];
            assert(!s[k + 1]);
        } else {
            assert(!s[0]);
        }
    }
}

} // verus!
