//! Least-cost routes through a network of one-way trails between named
//! campsites, for any cost function, and the three fixed route queries built on it.
use vstd::prelude::*;
use crate::dijkstra::{index_ends, least_cost_between};
use crate::trails::{Hiker, Trail, travel_time_of};
use crate::walks::{is_outcome, is_walk, walk_cost};

verus! {

/// The campsite names where each trail starts and ends.
pub open spec fn trail_ends(trails: Seq<Trail>) -> Seq<(Seq<char>, Seq<char>)> {
    trails.map_values(|t: Trail| (t.start@, t.end@))
}

/// Each trail costs its length.
pub open spec fn distance_costs(trails: Seq<Trail>) -> Seq<Option<u64>> {
    trails.map_values(|t: Trail| Some(t.distance as u64))
}

/// Each trail costs its danger rating.
pub open spec fn danger_costs(trails: Seq<Trail>) -> Seq<Option<u64>> {
    trails.map_values(|t: Trail| Some(t.danger as u64))
}

/// What a trail costs hiker `h` in travel time, `None` where `h` cannot use it.
pub open spec fn travel_cost(h: Hiker, t: Trail) -> Option<u64> {
    match travel_time_of(h, t.terrain, t.distance as int) {
        Some(x) => Some(x as u64),
        None => None,
    }
}

/// Each trail costs hiker `h` its travel time.
pub open spec fn time_costs(h: Hiker, trails: Seq<Trail>) -> Seq<Option<u64>> {
    trails.map_values(|t: Trail| travel_cost(h, t))
}

pub open spec fn distinct_names(names: Seq<String>) -> bool {
    forall|i: int, j: int| 0 <= i < names.len() && 0 <= j < names.len() && i != j ==> names[i]@ != names[j]@
}

/// The position of `s` among `names`, which gains `s` at its end where it was missing.
fn intern(names: &mut Vec<String>, s: &String) -> (r: usize)
    requires
        distinct_names(old(names)@),
        old(names).len() < usize::MAX,
    ensures
        distinct_names(final(names)@),
        r < final(names).len(),
        final(names)[r as int]@ == s@,
        old(names).len() <= final(names).len() <= old(names).len() + 1,
        forall|i: int| 0 <= i < old(names).len() ==> final(names)[i]@ == old(names)[i]@,
{
    let mut i: usize = 0;
    while i < names.len()
        invariant
            i <= names.len(),
            names@ == old(names)@,
            distinct_names(names@),
            forall|k: int| 0 <= k < i ==> names[k]@ != s@,
        decreases names.len() - i,
    {
        if names[i] == *s {
            return i;
        }
        i += 1;
    }
    names.push(s.clone());
    names.len() - 1
}

/// Walks over the numbered campsites are exactly the walks over their names.
proof fn lemma_walk_transfer(
    te: Seq<(Seq<char>, Seq<char>)>,
    ie: Seq<(int, int)>,
    nm: Seq<Seq<char>>,
    costs: Seq<Option<u64>>,
    a: int,
    b: int,
    p: Seq<int>,
)
    requires
        te.len() == ie.len(),
        forall|j: int|
            0 <= j < ie.len() ==> 0 <= (#[trigger] ie[j]).0 < nm.len() && 0 <= ie[j].1 < nm.len() && te[j] == (
            nm[ie[j].0], nm[ie[j].1]),
        forall|i: int, k: int| 0 <= i < nm.len() && 0 <= k < nm.len() && i != k ==> nm[i] != nm[k],
        0 <= a < nm.len(),
        0 <= b < nm.len(),
    ensures
        is_walk(ie, costs, a, b, p) <==> is_walk(te, costs, nm[a], nm[b], p),
{
    if is_walk(ie, costs, a, b, p) {
        assert forall|k: int| 0 <= k < p.len() - 1 implies (#[trigger] te[p[k]]).1 == te[p[k + 1]].0 by {
            assert(ie[p[k]].1 == ie[p[k + 1]].0);
        }
    }
    if is_walk(te, costs, nm[a], nm[b], p) {
        assert forall|k: int| 0 <= k < p.len() - 1 implies (#[trigger] ie[p[k]]).1 == ie[p[k + 1]].0 by {
            assert(te[p[k]].1 == te[p[k + 1]].0);
        }
    }
}

/// Least total cost of a walk from campsite `start` to campsite `destination`,
/// where trail `i` costs `costs[i]` (`None`: it may not be used), or `None`
/// where no walk leads there. A campsite is always reachable from itself at no cost.
pub fn least_cost(start: &String, destination: &String, trails: &[Trail], costs: &Vec<Option<u64>>) -> (r: Option<u128>)
    requires
        costs.len() == trails.len(),
        trails.len() <= usize::MAX / 4,
    ensures
        is_outcome(trail_ends(trails@), costs@, start@, destination@, r),
{
    let mut names: Vec<String> = Vec::new();
    let si = intern(&mut names, start);
    let ti = intern(&mut names, destination);
    let mut src: Vec<usize> = Vec::new();
    let mut dst: Vec<usize> = Vec::new();
    let mut i: usize = 0;
    while i < trails.len()
        invariant
            i <= trails.len(),
            trails.len() <= usize::MAX / 4,
            distinct_names(names@),
            names.len() <= 2 + 2 * i,
            si < names.len(),
            ti < names.len(),
            names[si as int]@ == start@,
            names[ti as int]@ == destination@,
            src.len() == i,
            dst.len() == i,
            forall|j: int|
                0 <= j < i ==> src[j] < names.len() && dst[j] < names.len() && names[src[j] as int]@
                    == trails@[j].start@ && names[dst[j] as int]@ == trails@[j].end@,
        decreases trails.len() - i,
    {
        let a = intern(&mut names, &trails[i].start);
        let b = intern(&mut names, &trails[i].end);
        src.push(a);
        dst.push(b);
        i += 1;
    }
    let r = least_cost_between(names.len(), &src, &dst, costs, si, ti);
    proof {
        let te = trail_ends(trails@);
        let ie = index_ends(src@, dst@);
        let nm = names@.map_values(|s: String| s@);
        let cs = costs@;
        assert forall|j: int| 0 <= j < ie.len() implies 0 <= (#[trigger] ie[j]).0 < nm.len() && 0 <= ie[j].1
            < nm.len() && te[j] == (nm[ie[j].0], nm[ie[j].1]) by {
            assert(names[src[j] as int]@ == trails@[j].start@);
        }
        assert(nm[si as int] == start@);
        assert(nm[ti as int] == destination@);
        assert forall|p: Seq<int>| is_walk(ie, cs, si as int, ti as int, p) <==> is_walk(te, cs, start@, destination@, p) by {
            lemma_walk_transfer(te, ie, nm, cs, si as int, ti as int, p);
        }
        match r {
            Some(d) => {
                let w = choose|p: Seq<int>| is_walk(ie, cs, si as int, ti as int, p) && walk_cost(cs, p) == d as int;
                assert(is_walk(te, cs, start@, destination@, w));
                assert forall|p: Seq<int>| is_walk(te, cs, start@, destination@, p) implies d as int <= walk_cost(cs, p) by {
                    assert(is_walk(ie, cs, si as int, ti as int, p));
                }
            },
            None => {
                assert forall|p: Seq<int>| !is_walk(te, cs, start@, destination@, p) by {
                    if is_walk(te, cs, start@, destination@, p) {
                        assert(is_walk(ie, cs, si as int, ti as int, p));
                    }
                }
            },
        }
    }
    r
}

/// Least total cost for `hiker` of a walk from `start` to `destination`, where
/// `cost_function` gives what each trail costs the hiker, or `None` where the
/// hiker cannot use it. Returns `None` where no usable walk leads there.
pub fn optimal_path(
    start: String,
    destination: String,
    hiker: &Hiker,
    trails: &[Trail],
    cost_function: impl Fn(&Hiker, &Trail) -> Option<u64>,
) -> (r: Option<u128>)
    requires
        trails.len() <= usize::MAX / 4,
        forall|i: int| 0 <= i < trails.len() ==> cost_function.requires((hiker, &trails@[i])),
    ensures
        exists|costs: Seq<Option<u64>>|
            costs.len() == trails.len() && (forall|i: int|
                0 <= i < trails.len() ==> cost_function.ensures((hiker, &trails@[i]), #[trigger] costs[i]))
                && is_outcome(trail_ends(trails@), costs, start@, destination@, r),
{
    let mut costs: Vec<Option<u64>> = Vec::new();
    let mut i: usize = 0;
    while i < trails.len()
        invariant
            i <= trails.len(),
            costs.len() == i,
            forall|j: int| 0 <= j < trails.len() ==> cost_function.requires((hiker, &trails@[j])),
            forall|j: int| 0 <= j < i ==> cost_function.ensures((hiker, &trails@[j]), #[trigger] costs[j]),
        decreases trails.len() - i,
    {
        let c = cost_function(hiker, &trails[i]);
        costs.push(c);
        i += 1;
    }
    least_cost(&start, &destination, trails, &costs)
}

/// The shortest (least distance) route for the default hiker from
/// "Green Lake" to "Prairie Meadows".
pub fn bills_shortest_path_from_green_lake_to_prairie_meadows(trails: &[Trail]) -> (r: Option<u128>)
    requires
        trails.len() <= usize::MAX / 4,
    ensures
        is_outcome(trail_ends(trails@), distance_costs(trails@), "Green Lake"@, "Prairie Meadows"@, r),
{
    let hiker = Hiker::default();
    let by_distance = |_h: &Hiker, t: &Trail| -> (c: Option<u64>)
        ensures
            c == Some(t.distance as u64),
        { Some(t.distance as u64) };
    let r = optimal_path(
        String::from_str("Green Lake"),
        String::from_str("Prairie Meadows"),
        &hiker,
        trails,
        by_distance,
    );
    proof {
        let costs = choose|costs: Seq<Option<u64>>|
            costs.len() == trails.len() && (forall|i: int|
                0 <= i < trails.len() ==> by_distance.ensures((&hiker, &trails@[i]), #[trigger] costs[i]))
                && is_outcome(trail_ends(trails@), costs, "Green Lake"@, "Prairie Meadows"@, r);
        assert(costs =~= distance_costs(trails@));
    }
    r
}

/// The safest (least total danger) route for the default hiker between two campsites.
pub fn bills_safest_path(start: String, destination: String, trails: &[Trail]) -> (r: Option<u128>)
    requires
        trails.len() <= usize::MAX / 4,
    ensures
        is_outcome(trail_ends(trails@), danger_costs(trails@), start@, destination@, r),
{
    let hiker = Hiker::default();
    let by_danger = |_h: &Hiker, t: &Trail| -> (c: Option<u64>)
        ensures
            c == Some(t.danger as u64),
        { Some(t.danger as u64) };
    let ghost (s, d) = (start@, destination@);
    let r = optimal_path(start, destination, &hiker, trails, by_danger);
    proof {
        let costs = choose|costs: Seq<Option<u64>>|
            costs.len() == trails.len() && (forall|i: int|
                0 <= i < trails.len() ==> by_danger.ensures((&hiker, &trails@[i]), #[trigger] costs[i]))
                && is_outcome(trail_ends(trails@), costs, s, d, r);
        assert(costs =~= danger_costs(trails@));
    }
    r
}

/// The fastest (least travel time) route for `hiker` from "Green Lake" to
/// "Prairie Meadows", using only trails the hiker can traverse.
pub fn fastest_path_from_green_lake_to_prairie_meadows(hiker: &Hiker, trails: &[Trail]) -> (r: Option<u128>)
    requires
        trails.len() <= usize::MAX / 4,
    ensures
        is_outcome(trail_ends(trails@), time_costs(*hiker, trails@), "Green Lake"@, "Prairie Meadows"@, r),
{
    let by_time = |h: &Hiker, t: &Trail| -> (c: Option<u64>)
        ensures
            c == travel_cost(*h, *t),
        { h.travel_time(&t.terrain, t.distance) };
    let r = optimal_path(
        String::from_str("Green Lake"),
        String::from_str("Prairie Meadows"),
        hiker,
        trails,
        by_time,
    );
    proof {
        let costs = choose|costs: Seq<Option<u64>>|
            costs.len() == trails.len() && (forall|i: int|
                0 <= i < trails.len() ==> by_time.ensures((hiker, &trails@[i]), #[trigger] costs[i]))
                && is_outcome(trail_ends(trails@), costs, "Green Lake"@, "Prairie Meadows"@, r);
        assert(costs =~= time_costs(*hiker, trails@));
    }
    r
}

} // verus!
