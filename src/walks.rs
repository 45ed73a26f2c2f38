//! The mathematical model of routes through a network of one-way edges: a walk
//! is a sequence of edge indices, each admissible and each starting where the
//! previous one ended; its cost is the sum of the edges' costs.
use vstd::prelude::*;

verus! {

/// `p` is a walk from `from` to `to` over edges whose endpoints are `ends` and
/// whose costs are `costs` (`None`: the edge may not be used).
pub open spec fn is_walk<N>(ends: Seq<(N, N)>, costs: Seq<Option<u64>>, from: N, to: N, p: Seq<int>) -> bool {
    &&& forall|k: int|
        0 <= k < p.len() ==> 0 <= #[trigger] p[k] < ends.len() && p[k] < costs.len() && costs[p[k]] is Some
    &&& p.len() == 0 ==> from == to
    &&& p.len() > 0 ==> ends[p[0]].0 == from && ends[p[p.len() - 1]].1 == to
    &&& forall|k: int| 0 <= k < p.len() - 1 ==> (#[trigger] ends[p[k]]).1 == ends[p[k + 1]].0
}

/// Total cost of the edges of `p`.
pub open spec fn walk_cost(costs: Seq<Option<u64>>, p: Seq<int>) -> int
    decreases p.len(),
{
    if p.len() == 0 {
        0
    } else {
        walk_cost(costs, p.drop_last()) + costs[p[p.len() - 1]]->Some_0 as int
    }
}

/// Some walk leads from `from` to `to`.
pub open spec fn connected<N>(ends: Seq<(N, N)>, costs: Seq<Option<u64>>, from: N, to: N) -> bool {
    exists|p: Seq<int>| is_walk(ends, costs, from, to, p)
}

/// `d` is the cost of some walk from `from` to `to`, and no walk costs less.
pub open spec fn is_least_cost<N>(ends: Seq<(N, N)>, costs: Seq<Option<u64>>, from: N, to: N, d: int) -> bool {
    &&& exists|p: Seq<int>| is_walk(ends, costs, from, to, p) && walk_cost(costs, p) == d
    &&& forall|p: Seq<int>| is_walk(ends, costs, from, to, p) ==> d <= walk_cost(costs, p)
}

/// `r` is the answer to a least-cost query: the least cost where a walk
/// exists, `None` where none does.
pub open spec fn is_outcome<N>(ends: Seq<(N, N)>, costs: Seq<Option<u64>>, from: N, to: N, r: Option<u128>) -> bool {
    match r {
        Some(d) => is_least_cost(ends, costs, from, to, d as int),
        None => !connected(ends, costs, from, to),
    }
}

pub proof fn lemma_walk_cost_nonneg(costs: Seq<Option<u64>>, p: Seq<int>)
    ensures
        walk_cost(costs, p) >= 0,
    decreases p.len(),
{
    if p.len() > 0 {
        lemma_walk_cost_nonneg(costs, p.drop_last());
    }
}

/// The empty walk stays where it is and costs nothing.
pub proof fn lemma_empty_walk<N>(ends: Seq<(N, N)>, costs: Seq<Option<u64>>, n: N)
    ensures
        is_walk(ends, costs, n, n, Seq::<int>::empty()),
        walk_cost(costs, Seq::<int>::empty()) == 0,
{
}

/// Dropping the last edge of a walk leaves a walk to that edge's start.
pub proof fn lemma_walk_drop_last<N>(ends: Seq<(N, N)>, costs: Seq<Option<u64>>, from: N, to: N, p: Seq<int>)
    requires
        is_walk(ends, costs, from, to, p),
        p.len() > 0,
    ensures
        is_walk(ends, costs, from, ends[p[p.len() - 1]].0, p.drop_last()),
        walk_cost(costs, p) == walk_cost(costs, p.drop_last()) + costs[p[p.len() - 1]]->Some_0 as int,
{
    let q = p.drop_last();
    assert forall|k: int| 0 <= k < q.len() - 1 implies (#[trigger] ends[q[k]]).1 == ends[q[k + 1]].0 by {
        assert(ends[p[k]].1 == ends[p[k + 1]].0);
    }
    if q.len() > 0 {
        assert(ends[p[p.len() - 2]].1 == ends[p[p.len() - 1]].0);
    }
}

/// Appending an admissible edge that starts where a walk ends extends the walk.
pub proof fn lemma_walk_push<N>(ends: Seq<(N, N)>, costs: Seq<Option<u64>>, from: N, to: N, p: Seq<int>, j: int)
    requires
        is_walk(ends, costs, from, to, p),
        0 <= j < ends.len(),
        j < costs.len(),
        costs[j] is Some,
        ends[j].0 == to,
    ensures
        is_walk(ends, costs, from, ends[j].1, p.push(j)),
        walk_cost(costs, p.push(j)) == walk_cost(costs, p) + costs[j]->Some_0 as int,
{
    let q = p.push(j);
    assert(q.drop_last() =~= p);
    assert forall|k: int| 0 <= k < q.len() implies 0 <= #[trigger] q[k] < ends.len() && q[k] < costs.len()
        && costs[q[k]] is Some by {
        if k < p.len() {
            assert(q[k] == p[k]);
        }
    }
    assert forall|k: int| 0 <= k < q.len() - 1 implies (#[trigger] ends[q[k]]).1 == ends[q[k + 1]].0 by {
        if k < p.len() - 1 {
            assert(q[k] == p[k] && q[k + 1] == p[k + 1]);
            assert(ends[p[k]].1 == ends[p[k + 1]].0);
        }
    }
}

} // verus!
