//! Single-source least-cost search over nodes numbered `0..n`, with edges given
//! as parallel vectors of start nodes, end nodes and optional costs.
use vstd::prelude::*;
use vstd::set_lib::*;
use crate::walks::{is_outcome, is_walk, lemma_empty_walk, lemma_walk_cost_nonneg, lemma_walk_drop_last, lemma_walk_push, walk_cost};

verus! {

/// Marks a node that no walk examined so far has reached.
pub const UNREACHED: u128 = 0xffff_ffff_ffff_ffff_ffff_ffff_ffff_ffff;

/// Largest cost of a single edge.
pub const MAX_EDGE_COST: u128 = 0xffff_ffff_ffff_ffff;

/// Edges numbered by index, as pairs of node numbers.
pub open spec fn index_ends(src: Seq<usize>, dst: Seq<usize>) -> Seq<(int, int)> {
    Seq::new(src.len(), |i: int| (src[i] as int, dst[i] as int))
}

/// Every finite tentative cost is the cost of some walk from `s`.
pub open spec fn sound(ends: Seq<(int, int)>, costs: Seq<Option<u64>>, s: int, dist: Seq<u128>) -> bool {
    forall|v: int|
        0 <= v < dist.len() && #[trigger] dist[v] != UNREACHED ==> exists|p: Seq<int>|
            is_walk(ends, costs, s, v, p) && walk_cost(costs, p) == dist[v] as int
}

/// The tentative cost of each settled node is no more than that of any walk to it.
pub open spec fn settled(ends: Seq<(int, int)>, costs: Seq<Option<u64>>, s: int, dist: Seq<u128>, done: Set<int>) -> bool {
    forall|v: int, p: Seq<int>|
        #[trigger] done.contains(v) && #[trigger] is_walk(ends, costs, s, v, p) ==> dist[v] as int <= walk_cost(costs, p)
}

/// Edge `j` cannot lower the tentative cost of its end any further.
pub open spec fn relaxed_edge(ends: Seq<(int, int)>, costs: Seq<Option<u64>>, dist: Seq<u128>, j: int) -> bool {
    costs[j] is Some ==> dist[ends[j].1] != UNREACHED && dist[ends[j].1] as int <= dist[ends[j].0] as int
        + costs[j]->Some_0 as int
}

/// Every edge that leaves a settled node has been relaxed.
pub open spec fn relaxed(ends: Seq<(int, int)>, costs: Seq<Option<u64>>, dist: Seq<u128>, done: Set<int>) -> bool {
    forall|j: int| 0 <= j < ends.len() && #[trigger] done.contains(ends[j].0) ==> relaxed_edge(ends, costs, dist, j)
}

pub open spec fn edges_within(ends: Seq<(int, int)>, n: int) -> bool {
    forall|j: int| 0 <= j < ends.len() ==> 0 <= (#[trigger] ends[j]).0 < n && 0 <= ends[j].1 < n
}

/// A walk from a settled node `s` to an unsettled node `u` passes some unsettled
/// node whose tentative cost is finite and no more than the walk's cost.
proof fn lemma_cut(
    ends: Seq<(int, int)>,
    costs: Seq<Option<u64>>,
    s: int,
    dist: Seq<u128>,
    done: Set<int>,
    u: int,
    p: Seq<int>,
)
    requires
        edges_within(ends, dist.len() as int),
        is_walk(ends, costs, s, u, p),
        done.contains(s),
        !done.contains(u),
        settled(ends, costs, s, dist, done),
        relaxed(ends, costs, dist, done),
    ensures
        exists|y: int|
            0 <= y < dist.len() && !done.contains(y) && dist[y] != UNREACHED && dist[y] as int <= walk_cost(costs, p),
    decreases p.len(),
{
    let j = p[p.len() - 1];
    let x = ends[j].0;
    let q = p.drop_last();
    lemma_walk_drop_last(ends, costs, s, u, p);
    if done.contains(x) {
        assert(relaxed_edge(ends, costs, dist, j));
        assert(dist[x] as int <= walk_cost(costs, q));
        assert(0 <= u < dist.len());
    } else {
        lemma_cut(ends, costs, s, dist, done, x, q);
    }
}

/// Among the nodes not yet settled whose tentative cost is finite, one of least cost.
fn select_next(dist: &Vec<u128>, visited: &Vec<bool>) -> (r: Option<usize>)
    requires
        dist.len() == visited.len(),
    ensures
        r matches Some(w) ==> w < dist.len() && !visited[w as int] && dist[w as int] != UNREACHED && forall|v: int|
            0 <= v < dist.len() && !visited[v] && dist[v] != UNREACHED ==> dist[w as int] <= dist[v],
        r is None ==> forall|v: int| 0 <= v < dist.len() ==> visited[v] || dist[v] == UNREACHED,
{
    let mut best: Option<usize> = None;
    let mut i: usize = 0;
    while i < dist.len()
        invariant
            i <= dist.len(),
            dist.len() == visited.len(),
            best matches Some(w) ==> w < i && !visited[w as int] && dist[w as int] != UNREACHED && forall|v: int|
                0 <= v < i && !visited[v] && dist[v] != UNREACHED ==> dist[w as int] <= dist[v],
            best is None ==> forall|v: int| 0 <= v < i ==> visited[v] || dist[v] == UNREACHED,
        decreases dist.len() - i,
    {
        if !visited[i] && dist[i] != UNREACHED {
            match best {
                Some(w) => {
                    if dist[i] < dist[w] {
                        best = Some(i);
                    }
                },
                None => {
                    best = Some(i);
                },
            }
        }
        i += 1;
    }
    best
}

/// Least total cost of a walk from node `s` to node `t`, or `None` where no walk
/// leads there. Nodes are settled in order of increasing cost; the search stops
/// as soon as `t` is settled.
pub fn least_cost_between(
    n: usize,
    src: &Vec<usize>,
    dst: &Vec<usize>,
    costs: &Vec<Option<u64>>,
    s: usize,
    t: usize,
) -> (r: Option<u128>)
    requires
        src.len() == dst.len(),
        costs.len() == src.len(),
        forall|j: int| 0 <= j < src.len() ==> src[j] < n && dst[j] < n,
        s < n,
        t < n,
        n <= 0x8000_0000_0000_0000,
    ensures
        is_outcome(index_ends(src@, dst@), costs@, s as int, t as int, r),
{
    let ghost ends = index_ends(src@, dst@);
    let ghost cs = costs@;
    let ghost si = s as int;
    let mut dist: Vec<u128> = Vec::new();
    let mut visited: Vec<bool> = Vec::new();
    let mut i: usize = 0;
    while i < n
        invariant
            i <= n,
            s < n,
            si == s as int,
            dist.len() == i,
            visited.len() == i,
            forall|v: int| 0 <= v < i ==> !visited[v],
            forall|v: int| 0 <= v < i ==> dist[v] == (if v == si { 0u128 } else { UNREACHED }),
        decreases n - i,
    {
        if i == s {
            dist.push(0);
        } else {
            dist.push(UNREACHED);
        }
        visited.push(false);
        i += 1;
    }
    let ghost mut done: Set<int> = Set::empty();
    proof {
        lemma_empty_walk(ends, cs, si);
        assert forall|v: int| 0 <= v < dist.len() && #[trigger] dist[v] != UNREACHED implies exists|p: Seq<int>|
            is_walk(ends, cs, si, v, p) && walk_cost(cs, p) == dist[v] as int by {
            assert(v == si);
            assert(is_walk(ends, cs, si, v, Seq::<int>::empty()));
        }
    }
    let mut current: usize = s;
    loop
        invariant
            dist.len() == n,
            visited.len() == n,
            n <= 0x8000_0000_0000_0000,
            src.len() == dst.len(),
            costs.len() == src.len(),
            ends == index_ends(src@, dst@),
            cs == costs@,
            si == s as int,
            s < n,
            t < n,
            edges_within(ends, n as int),
            forall|v: int| 0 <= v < n ==> (visited[v] <==> done.contains(v)),
            done.subset_of(set_int_range(0, n as int)),
            done.finite(),
            current < n,
            !done.contains(current as int),
            dist[current as int] != UNREACHED,
            forall|v: int|
                0 <= v < n && !done.contains(v) && dist[v] != UNREACHED ==> dist[current as int] <= dist[v],
            dist[si] == 0,
            done.len() == 0 ==> current == s,
            done.len() > 0 ==> done.contains(si),
            !done.contains(t as int),
            sound(ends, cs, si, dist@),
            settled(ends, cs, si, dist@, done),
            relaxed(ends, cs, dist@, done),
            forall|v: int| 0 <= v < n && #[trigger] dist[v] != UNREACHED ==> dist[v] as int <= done.len() * MAX_EDGE_COST,
        decreases n - done.len(),
    {
        let u = current;
        proof {
            assert forall|p: Seq<int>| is_walk(ends, cs, si, u as int, p) implies dist[u as int] as int <= walk_cost(cs, p) by {
                lemma_walk_cost_nonneg(cs, p);
                if u != s {
                    lemma_cut(ends, cs, si, dist@, done, u as int, p);
                }
            }
            done = done.insert(u as int);
            lemma_int_range(0, n as int);
            lemma_len_subset(done, set_int_range(0, n as int));
        }
        visited.set(u, true);
        let ghost d0 = dist@;
        let mut j: usize = 0;
        while j < src.len()
            invariant
                j <= src.len(),
                dist.len() == n,
                visited.len() == n,
                n <= 0x8000_0000_0000_0000,
                src.len() == dst.len(),
                costs.len() == src.len(),
                ends == index_ends(src@, dst@),
                cs == costs@,
                si == s as int,
                u < n,
                s < n,
                edges_within(ends, n as int),
                forall|v: int| 0 <= v < n ==> (visited[v] <==> done.contains(v)),
                done.contains(u as int),
                done.contains(si),
                done.len() <= n,
                d0.len() == n,
                forall|v: int| 0 <= v < n && done.contains(v) ==> dist[v] == d0[v],
                forall|v: int| 0 <= v < n ==> dist[v] <= d0[v],
                d0[u as int] != UNREACHED,
                d0[u as int] as int <= (done.len() - 1) * MAX_EDGE_COST,
                sound(ends, cs, si, dist@),
                settled(ends, cs, si, dist@, done),
                forall|k: int|
                    0 <= k < ends.len() && #[trigger] done.contains(ends[k].0) && (ends[k].0 != u || k < j)
                        ==> relaxed_edge(ends, cs, dist@, k),
                forall|v: int| 0 <= v < n && #[trigger] dist[v] != UNREACHED ==> dist[v] as int <= done.len() * MAX_EDGE_COST,
            decreases src.len() - j,
        {
            assert(ends[j as int] == (src[j as int] as int, dst[j as int] as int));
            if src[j] == u {
                if let Some(c) = costs[j] {
                    let v = dst[j];
                    let cand: u128 = dist[u] + c as u128;
                    if cand < dist[v] {
                        proof {
                            let pu = choose|p: Seq<int>| is_walk(ends, cs, si, u as int, p) && walk_cost(cs, p) == dist[u as int] as int;
                            lemma_walk_push(ends, cs, si, u as int, pu, j as int);
                            if done.contains(v as int) {
                                assert(dist[v as int] as int <= walk_cost(cs, pu.push(j as int)));
                            }
                        }
                        let ghost before = dist@;
                        dist.set(v, cand);
                        proof {
                            let pu = choose|p: Seq<int>| is_walk(ends, cs, si, u as int, p) && walk_cost(cs, p) == before[u as int] as int;
                            lemma_walk_push(ends, cs, si, u as int, pu, j as int);
                            assert forall|w: int| 0 <= w < dist.len() && #[trigger] dist[w] != UNREACHED implies exists|p: Seq<int>|
                                is_walk(ends, cs, si, w, p) && walk_cost(cs, p) == dist[w] as int by {
                                if w == v as int {
                                    assert(is_walk(ends, cs, si, w, pu.push(j as int)));
                                } else {
                                    assert(before[w] == dist[w]);
                                }
                            }
                            assert forall|k: int|
                                0 <= k < ends.len() && #[trigger] done.contains(ends[k].0) && (ends[k].0 != u || k < j + 1)
                                    implies relaxed_edge(ends, cs, dist@, k) by {
                                if k != j {
                                    assert(relaxed_edge(ends, cs, before, k));
                                }
                            }
                        }
                    }
                }
            }
            j += 1;
        }
        if u == t {
            proof {
                assert(dist[u as int] != UNREACHED);
            }
            return Some(dist[u]);
        }
        match select_next(&dist, &visited) {
            None => {
                proof {
                    assert forall|p: Seq<int>| !is_walk(ends, cs, si, t as int, p) by {
                        if is_walk(ends, cs, si, t as int, p) {
                            lemma_cut(ends, cs, si, dist@, done, t as int, p);
                        }
                    }
                }
                return None;
            },
            Some(w) => {
                current = w;
            },
        }
    }
}

} // verus!
