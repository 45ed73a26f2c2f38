//! Laws that every answer of the least-cost route queries obeys. Each query of
//! `path_finding` ensures `is_outcome` of its network and costs; these lemmas
//! start from that.
use vstd::prelude::*;
use crate::path_finding::trail_ends;
use crate::trails::Trail;
use crate::walks::{connected, is_least_cost, is_outcome, is_walk, lemma_empty_walk, walk_cost};

verus! {

/// A query from a campsite to itself answers 0, whatever the trails and costs.
pub proof fn law_same_endpoints_cost_nothing(trails: Seq<Trail>, costs: Seq<Option<u64>>, n: Seq<char>, r: Option<u128>)
    requires
        is_outcome(trail_ends(trails), costs, n, n, r),
    ensures
        r == Some(0u128),
{
    let ends = trail_ends(trails);
    lemma_empty_walk(ends, costs, n);
    assert(connected(ends, costs, n, n));
    let d = r->Some_0;
    assert(d as int <= walk_cost(costs, Seq::<int>::empty()));
}

/// Where no usable walk leads from `from` to `to`, the answer is `None`,
/// however many trails there are.
pub proof fn law_no_walk_no_route(
    trails: Seq<Trail>,
    costs: Seq<Option<u64>>,
    from: Seq<char>,
    to: Seq<char>,
    r: Option<u128>,
)
    requires
        is_outcome(trail_ends(trails), costs, from, to, r),
        forall|p: Seq<int>| !is_walk(trail_ends(trails), costs, from, to, p),
    ensures
        r is None,
{
}

/// The answer is never more than the cost of any usable walk one sums by hand.
pub proof fn law_no_walk_is_cheaper(
    trails: Seq<Trail>,
    costs: Seq<Option<u64>>,
    from: Seq<char>,
    to: Seq<char>,
    r: Option<u128>,
    p: Seq<int>,
)
    requires
        is_outcome(trail_ends(trails), costs, from, to, r),
        is_walk(trail_ends(trails), costs, from, to, p),
    ensures
        r matches Some(d) && d as int <= walk_cost(costs, p),
{
}

/// A query has one answer: two answers for the same network, costs and
/// endpoints are equal, so every way of asking it (the fixed route queries or
/// `optimal_path` itself) returns the same.
pub proof fn law_answer_is_unique(
    trails: Seq<Trail>,
    costs: Seq<Option<u64>>,
    from: Seq<char>,
    to: Seq<char>,
    r1: Option<u128>,
    r2: Option<u128>,
)
    requires
        is_outcome(trail_ends(trails), costs, from, to, r1),
        is_outcome(trail_ends(trails), costs, from, to, r2),
    ensures
        r1 == r2,
{
    let ends = trail_ends(trails);
    if let Some(d1) = r1 {
        let w1 = choose|p: Seq<int>| is_walk(ends, costs, from, to, p) && walk_cost(costs, p) == d1 as int;
        if let Some(d2) = r2 {
            let w2 = choose|p: Seq<int>| is_walk(ends, costs, from, to, p) && walk_cost(costs, p) == d2 as int;
            assert(d1 as int <= walk_cost(costs, w2));
            assert(d2 as int <= walk_cost(costs, w1));
        } else {
            assert(connected(ends, costs, from, to));
        }
    } else if let Some(d2) = r2 {
        let w2 = choose|p: Seq<int>| is_walk(ends, costs, from, to, p) && walk_cost(costs, p) == d2 as int;
        assert(connected(ends, costs, from, to));
    }
}

/// Appending costs for new edges leaves the cost of a walk over the old edges unchanged.
proof fn lemma_cost_extend(costs: Seq<Option<u64>>, c: Option<u64>, p: Seq<int>)
    requires
        forall|k: int| 0 <= k < p.len() ==> 0 <= #[trigger] p[k] < costs.len(),
    ensures
        walk_cost(costs.push(c), p) == walk_cost(costs, p),
    decreases p.len(),
{
    if p.len() > 0 {
        let q = p.drop_last();
        assert forall|k: int| 0 <= k < q.len() implies 0 <= #[trigger] q[k] < costs.len() by {
            assert(q[k] == p[k]);
        }
        lemma_cost_extend(costs, c, q);
    }
}

/// A walk with edge `m` replaced by edge `j`.
pub open spec fn reroute(p: Seq<int>, m: int, j: int) -> Seq<int> {
    p.map_values(|x: int| if x == m { j } else { x })
}

/// Taking edge `j` in place of the no cheaper edge `m` never raises a walk's cost.
proof fn lemma_reroute_cost(costs: Seq<Option<u64>>, c: Option<u64>, j: int, p: Seq<int>)
    requires
        0 <= j < costs.len(),
        costs[j] is Some,
        c is Some ==> costs[j]->Some_0 <= c->Some_0,
        forall|k: int| 0 <= k < p.len() ==> 0 <= #[trigger] p[k] <= costs.len() && costs.push(c)[p[k]] is Some,
    ensures
        walk_cost(costs, reroute(p, costs.len() as int, j)) <= walk_cost(costs.push(c), p),
    decreases p.len(),
{
    let m = costs.len() as int;
    if p.len() > 0 {
        let q = p.drop_last();
        assert(reroute(p, m, j).drop_last() =~= reroute(q, m, j));
        assert forall|k: int| 0 <= k < q.len() implies 0 <= #[trigger] q[k] <= costs.len() && costs.push(c)[q[k]] is Some by {
            assert(q[k] == p[k]);
        }
        lemma_reroute_cost(costs, c, j, q);
    }
}

/// A walk over the network with one more edge, no cheaper than an edge `j`
/// with the same endpoints, becomes a walk over the old network that costs no more.
proof fn lemma_reroute_walk<N>(
    ends: Seq<(N, N)>,
    costs: Seq<Option<u64>>,
    e: (N, N),
    c: Option<u64>,
    j: int,
    from: N,
    to: N,
    p: Seq<int>,
)
    requires
        ends.len() == costs.len(),
        0 <= j < ends.len(),
        ends[j] == e,
        costs[j] is Some,
        c is Some ==> costs[j]->Some_0 <= c->Some_0,
        is_walk(ends.push(e), costs.push(c), from, to, p),
    ensures
        is_walk(ends, costs, from, to, reroute(p, ends.len() as int, j)),
        walk_cost(costs, reroute(p, ends.len() as int, j)) <= walk_cost(costs.push(c), p),
{
    let m = ends.len() as int;
    let ends2 = ends.push(e);
    let q = reroute(p, m, j);
    assert forall|k: int| 0 <= k < p.len() implies ends[#[trigger] q[k]] == ends2[p[k]] && 0 <= q[k] < ends.len()
        && costs[q[k]] is Some by {
        assert(0 <= p[k] < ends2.len());
    }
    assert forall|k: int| 0 <= k < q.len() - 1 implies (#[trigger] ends[q[k]]).1 == ends[q[k + 1]].0 by {
        assert(ends[q[k]] == ends2[p[k]]);
        assert(ends[q[k + 1]] == ends2[p[k + 1]]);
        assert(ends2[p[k]].1 == ends2[p[k + 1]].0);
    }
    if p.len() > 0 {
        assert(ends[q[0]] == ends2[p[0]]);
        assert(ends[q[q.len() - 1]] == ends2[p[p.len() - 1]]);
    }
    lemma_reroute_cost(costs, c, j, p);
}

/// A walk over the old edges is a walk of the same cost once an edge is added.
proof fn lemma_walk_extend<N>(
    ends: Seq<(N, N)>,
    costs: Seq<Option<u64>>,
    e: (N, N),
    c: Option<u64>,
    from: N,
    to: N,
    p: Seq<int>,
)
    requires
        ends.len() == costs.len(),
        is_walk(ends, costs, from, to, p),
    ensures
        is_walk(ends.push(e), costs.push(c), from, to, p),
        walk_cost(costs.push(c), p) == walk_cost(costs, p),
{
    let ends2 = ends.push(e);
    assert forall|k: int| 0 <= k < p.len() - 1 implies (#[trigger] ends2[p[k]]).1 == ends2[p[k + 1]].0 by {
        assert(ends[p[k]].1 == ends[p[k + 1]].0);
    }
    lemma_cost_extend(costs, c, p);
}

/// Adding a trail `t` alongside an existing trail `j` between the same two
/// campsites, where `t` costs no less than trail `j` or cannot be used at all,
/// never changes the answer of any query.
pub proof fn law_no_cheaper_extra_trail_is_neutral(
    trails: Seq<Trail>,
    costs: Seq<Option<u64>>,
    t: Trail,
    c: Option<u64>,
    j: int,
    from: Seq<char>,
    to: Seq<char>,
    r: Option<u128>,
)
    requires
        costs.len() == trails.len(),
        0 <= j < trails.len(),
        trails[j].start@ == t.start@,
        trails[j].end@ == t.end@,
        costs[j] is Some,
        c is Some ==> costs[j]->Some_0 <= c->Some_0,
    ensures
        is_outcome(trail_ends(trails), costs, from, to, r) <==> is_outcome(
            trail_ends(trails.push(t)),
            costs.push(c),
            from,
            to,
            r,
        ),
{
    let ends = trail_ends(trails);
    let e = (t.start@, t.end@);
    let ends2 = trail_ends(trails.push(t));
    let costs2 = costs.push(c);
    let m = ends.len() as int;
    assert(ends2 =~= ends.push(e));
    assert(ends[j] == e);
    assert forall|p: Seq<int>| is_walk(ends, costs, from, to, p) implies is_walk(ends2, costs2, from, to, p) && walk_cost(
        costs2,
        p,
    ) == walk_cost(costs, p) by {
        lemma_walk_extend(ends, costs, e, c, from, to, p);
    }
    assert forall|p: Seq<int>| is_walk(ends2, costs2, from, to, p) implies is_walk(
        ends,
        costs,
        from,
        to,
        reroute(p, m, j),
    ) && walk_cost(costs, reroute(p, m, j)) <= walk_cost(costs2, p) by {
        lemma_reroute_walk(ends, costs, e, c, j, from, to, p);
    }
    if let Some(d) = r {
        if is_least_cost(ends, costs, from, to, d as int) {
            assert forall|p: Seq<int>| is_walk(ends2, costs2, from, to, p) implies d as int <= walk_cost(costs2, p) by {
                assert(is_walk(ends, costs, from, to, reroute(p, m, j)));
            }
            let w = choose|p: Seq<int>| is_walk(ends, costs, from, to, p) && walk_cost(costs, p) == d as int;
            assert(is_walk(ends2, costs2, from, to, w));
        }
        if is_least_cost(ends2, costs2, from, to, d as int) {
            let w = choose|p: Seq<int>| is_walk(ends2, costs2, from, to, p) && walk_cost(costs2, p) == d as int;
            let w2 = reroute(w, m, j);
            assert(is_walk(ends, costs, from, to, w2));
            assert(is_walk(ends2, costs2, from, to, w2));
            assert(walk_cost(costs, w2) == d as int);
            assert forall|p: Seq<int>| is_walk(ends, costs, from, to, p) implies d as int <= walk_cost(costs, p) by {
                assert(is_walk(ends2, costs2, from, to, p));
            }
        }
    } else {
        if connected(ends2, costs2, from, to) {
            let w = choose|p: Seq<int>| is_walk(ends2, costs2, from, to, p);
            assert(is_walk(ends, costs, from, to, reroute(w, m, j)));
        }
        if connected(ends, costs, from, to) {
            let w = choose|p: Seq<int>| is_walk(ends, costs, from, to, p);
            assert(is_walk(ends2, costs2, from, to, w));
        }
    }
}

} // verus!
