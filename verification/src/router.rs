//! The congestion- and direction-aware A* router over a road graph.

use vstd::prelude::*;

verus! {

broadcast use vstd::std_specs::hash::group_hash_axioms;

use std::collections::HashMap;
use std::collections::HashSet;

use crate::geom::distance;
use crate::geom::sat_add64;
use crate::geom::sat_mul64;
use crate::geom::saturating_add64;
use crate::geom::saturating_mul64;
use crate::road::NodeID;
use crate::road::Road;
use crate::road::RoadGraph;
use crate::road::RoadID;

/// A search state: a node, the cost paid to reach it, and that cost plus the
/// straight-line estimate of the cost still ahead.
#[derive(Clone, Copy, PartialEq, Eq, Structural, Debug)]
struct State {
    node: NodeID,
    cost: u64,
    est_total: u64,
}

impl State {
    fn new(node: NodeID, cost: u64, est_total: u64) -> (s: State)
        ensures
            s == (State { node, cost, est_total }),
    {
        State { node, cost, est_total }
    }
}

/// The router's cost of traversing a road, in thousandths: the road's length
/// (at least one unit) scaled up by up to a factor of four as its traffic
/// density grows, saturating instead of overflowing.
pub open spec fn road_weight(r: Road) -> u64 {
    let base = if r.length < 1 {
        1u64
    } else {
        r.length
    };
    sat_mul64(base, sat_add64(1000, sat_mul64(3, r.traffic_density)))
}

/// A road's weight is never below the weight of an empty unit-length road.
pub proof fn lemma_road_weight_positive(r: Road)
    ensures
        road_weight(r) >= 1000,
{
    let base = if r.length < 1 {
        1u64
    } else {
        r.length
    };
    let factor = sat_add64(1000, sat_mul64(3, r.traffic_density));
    assert(sat_mul64(base, factor) >= 1000) by (nonlinear_arith)
        requires
            base >= 1,
            factor >= 1000,
            sat_mul64(base, factor) == if base * factor > u64::MAX {
                u64::MAX
            } else {
                (base * factor) as u64
            },
    ;
}

/// A road's weight never shrinks when its traffic density grows.
pub proof fn lemma_road_weight_monotone(lighter: Road, heavier: Road)
    requires
        lighter.length == heavier.length,
        lighter.traffic_density <= heavier.traffic_density,
    ensures
        road_weight(lighter) <= road_weight(heavier),
{
    let base = if lighter.length < 1 {
        1u64
    } else {
        lighter.length
    };
    assert(sat_mul64(3, lighter.traffic_density) <= sat_mul64(3, heavier.traffic_density))
        by (nonlinear_arith)
        requires
            lighter.traffic_density <= heavier.traffic_density,
            sat_mul64(3, lighter.traffic_density) == if 3 * lighter.traffic_density > u64::MAX {
                u64::MAX
            } else {
                (3 * lighter.traffic_density) as u64
            },
            sat_mul64(3, heavier.traffic_density) == if 3 * heavier.traffic_density > u64::MAX {
                u64::MAX
            } else {
                (3 * heavier.traffic_density) as u64
            },
    ;
    let fl = sat_add64(1000, sat_mul64(3, lighter.traffic_density));
    let fh = sat_add64(1000, sat_mul64(3, heavier.traffic_density));
    assert(fl <= fh);
    assert(sat_mul64(base, fl) <= sat_mul64(base, fh)) by (nonlinear_arith)
        requires
            fl <= fh,
            sat_mul64(base, fl) == if base * fl > u64::MAX {
                u64::MAX
            } else {
                (base * fl) as u64
            },
            sat_mul64(base, fh) == if base * fh > u64::MAX {
                u64::MAX
            } else {
                (base * fh) as u64
            },
    ;
}

/// A one-way road may only be traversed in its forward sense: the travel
/// direction between the stored node positions must align (positive dot
/// product) with the road's own from-to direction. Two-way roads always pass.
pub open spec fn one_way_allows(g: RoadGraph, r: Road) -> bool {
    r.one_way ==> {
        let travel_from = g.nodes@[r.from.id.0].position;
        let travel_to = g.nodes@[r.to.id.0].position;
        let rx = r.to.position.x - r.from.position.x;
        let ry = r.to.position.y - r.from.position.y;
        let tx = travel_to.x - travel_from.x;
        let ty = travel_to.y - travel_from.y;
        rx * tx + ry * ty > 0
    }
}

/// The adjacency index offers an edge from `u` to `v` that the one-way filter
/// lets a traversal use.
pub open spec fn usable_edge(g: RoadGraph, u: i32, v: i32) -> bool {
    &&& g.adjacency@.contains_key(u)
    &&& exists|j: int|
        0 <= j < g.adjacency@[u]@.len() && {
            let e = #[trigger] g.adjacency@[u]@[j];
            e.0.0 == v && one_way_allows(g, g.roads@[e.1.0])
        }
}

/// An ordered list of road ids is a route from `start` to `goal`: every id
/// resolves, consecutive roads share a node, the first leaves `start`, the
/// last arrives at `goal`, no road is a self-loop, and every one-way road is
/// taken in its forward sense.
pub open spec fn valid_route(g: RoadGraph, path: Seq<RoadID>, start: NodeID, goal: NodeID) -> bool {
    &&& forall|i: int| 0 <= i < path.len() ==> g.roads@.contains_key((#[trigger] path[i]).0)
    &&& path.len() > 0 ==> g.roads@[path[0].0].from.id == start && g.roads@[path[path.len()
        - 1].0].to.id == goal
    &&& forall|i: int|
        0 <= i < path.len() - 1 ==> g.roads@[(#[trigger] path[i]).0].to.id == g.roads@[path[i
            + 1].0].from.id
    &&& forall|i: int|
        0 <= i < path.len() ==> one_way_allows(g, g.roads@[(#[trigger] path[i]).0])
    &&& forall|i: int|
        0 <= i < path.len() ==> g.roads@[(#[trigger] path[i]).0].from.id != g.roads@[path[i].0].to.id
}

/// On a valid route, consecutive roads are distinct: they share a node, and
/// no road of a valid route is a self-loop.
pub proof fn lemma_valid_route_no_adjacent_dup(
    g: RoadGraph,
    path: Seq<RoadID>,
    start: NodeID,
    goal: NodeID,
)
    requires
        valid_route(g, path, start, goal),
    ensures
        forall|i: int| 0 <= i < path.len() - 1 ==> #[trigger] path[i] != path[i + 1],
{
    assert forall|i: int| 0 <= i < path.len() - 1 implies #[trigger] path[i] != path[i + 1] by {
        if path[i] == path[i + 1] {
            assert(g.roads@[path[i].0].to.id == g.roads@[path[i].0].from.id);
        }
    }
}

/// Consuming the first road of a valid route leaves a valid route that picks
/// up where that road ends.
pub proof fn lemma_valid_route_tail(g: RoadGraph, path: Seq<RoadID>, start: NodeID, goal: NodeID)
    requires
        valid_route(g, path, start, goal),
        path.len() > 0,
    ensures
        valid_route(g, path.subrange(1, path.len() as int), g.roads@[path[0].0].to.id, goal),
{
    let tail = path.subrange(1, path.len() as int);
    assert(forall|i: int| 0 <= i < tail.len() ==> #[trigger] tail[i] == path[i + 1]);
    if tail.len() > 0 {
        assert(tail[0] == path[1]);
        assert(tail[tail.len() - 1] == path[path.len() - 1]);
    }
}

/// Every neighbor that node `u`'s adjacency entries offer through the
/// one-way filter has already been assigned a cost.
spec fn expanded(g: RoadGraph, costs: Map<i32, u64>, u: i32) -> bool {
    g.adjacency@.contains_key(u) ==> forall|j: int|
        0 <= j < g.adjacency@[u]@.len() && one_way_allows(
            g,
            g.roads@[(#[trigger] g.adjacency@[u]@[j]).1.0],
        ) ==> costs.contains_key(g.adjacency@[u]@[j].0.0)
}

proof fn lemma_expanded_monotone(g: RoadGraph, costs1: Map<i32, u64>, costs2: Map<i32, u64>, u: i32)
    requires
        expanded(g, costs1, u),
        forall|k: i32| #[trigger] costs1.contains_key(k) ==> costs2.contains_key(k),
    ensures
        expanded(g, costs2, u),
{
    if g.adjacency@.contains_key(u) {
        assert forall|j: int|
            0 <= j < g.adjacency@[u]@.len() && one_way_allows(
                g,
                g.roads@[(#[trigger] g.adjacency@[u]@[j]).1.0],
            ) implies costs2.contains_key(g.adjacency@[u]@[j].0.0) by {
            assert(costs1.contains_key(g.adjacency@[u]@[j].0.0));
        }
    }
}

/// Walking a valid route from a costed start node through fully expanded
/// territory assigns a cost to its end: costs spread along every valid route.
proof fn lemma_route_end_covered(
    g: RoadGraph,
    p: Seq<RoadID>,
    start: NodeID,
    goal: NodeID,
    costs: Map<i32, u64>,
    closed: Set<i32>,
)
    requires
        g.wf(),
        valid_route(g, p, start, goal),
        p.len() > 0,
        costs.contains_key(start.0),
        forall|k: i32| #[trigger] costs.contains_key(k) ==> closed.contains(k),
        forall|u: i32| #[trigger] closed.contains(u) ==> expanded(g, costs, u),
    ensures
        costs.contains_key(goal.0),
    decreases p.len(),
{
    let r = g.roads@[p[0].0];
    assert(g.roads@.contains_key(p[0].0));
    assert(r.id.0 == p[0].0);
    assert(g.road_listed(r));
    let entries = g.adjacency@[r.from.id.0]@;
    let j = choose|j: int| 0 <= j < entries.len() && entries[j] == (r.to.id, r.id);
    assert(closed.contains(start.0));
    assert(expanded(g, costs, start.0));
    assert(g.roads@[entries[j].1.0] == r);
    assert(one_way_allows(g, g.roads@[entries[j].1.0]));
    assert(costs.contains_key(entries[j].0.0));
    assert(costs.contains_key(r.to.id.0));
    if p.len() == 1 {
        assert(r.to.id == goal);
    } else {
        lemma_valid_route_tail(g, p, start, goal);
        lemma_route_end_covered(
            g,
            p.subrange(1, p.len() as int),
            g.roads@[p[0].0].to.id,
            goal,
            costs,
            closed,
        );
    }
}

/// Removes and returns a state with the least estimated total from the open
/// list, or `None` when the list is empty.
fn pop_min(open: &mut Vec<State>) -> (popped: Option<State>)
    ensures
        match popped {
            Some(s) => {
                &&& old(open)@.len() > 0
                &&& final(open)@.len() == old(open)@.len() - 1
                &&& old(open)@.contains(s)
                &&& exists|idx: int|
                    0 <= idx < old(open)@.len() && old(open)@[idx] == s && final(open)@ == old(
                        open,
                    )@.update(idx, old(open)@.last()).drop_last()
                &&& forall|i: int|
                    0 <= i < final(open)@.len() ==> old(open)@.contains(
                        #[trigger] final(open)@[i],
                    )
                &&& forall|i: int|
                    0 <= i < old(open)@.len() ==> s.est_total <= (#[trigger] old(
                        open,
                    )@[i]).est_total
            },
            None => old(open)@.len() == 0 && final(open)@ == old(open)@,
        },
{
    if open.len() == 0 {
        return None;
    }
    let mut best: usize = 0;
    let mut j: usize = 1;
    while j < open.len()
        invariant
            open@ == old(open)@,
            open@.len() > 0,
            best < j,
            j <= open@.len(),
            forall|i: int| 0 <= i < j ==> open@[best as int].est_total <= (#[trigger] open@[i]).est_total,
        decreases open@.len() - j,
    {
        if open[j].est_total < open[best].est_total {
            best = j;
        }
        j = j + 1;
    }
    let s = open.swap_remove(best);
    proof {
        assert forall|i: int| 0 <= i < final(open)@.len() implies old(open)@.contains(
            #[trigger] final(open)@[i],
        ) by {
            if i == best {
                assert(final(open)@[i] == old(open)@[old(open)@.len() - 1]);
            } else {
                assert(final(open)@[i] == old(open)@[i]);
            }
        }
        assert(old(open)@[best as int] == s);
        assert(0 <= best < old(open)@.len() && old(open)@[best as int] == s && final(open)@ == old(
            open,
        )@.update(best as int, old(open)@.last()).drop_last());
    }
    Some(s)
}

/// A* over the graph's nodes: returns an ordered list of road ids leading
/// from `start_node` to `goal_node`, or an empty list when no route exists —
/// a normal outcome, not an error. The open list is ordered by cost so far
/// plus the straight-line estimate to the goal, relaxation updates a node
/// when a strictly lower cost (or a first cost) is found, and each node is
/// expanded at most once. Any non-empty result is a valid route: it runs
/// road by road from `start_node` to `goal_node` and takes every one-way
/// road in its forward sense; and an empty result for distinct endpoints
/// means that no valid route connects them at all. The `debug` flag is the
/// caller's trace switch and does not change the result.
#[verifier::loop_isolation(false)]
#[verifier::rlimit(100)]
#[allow(unused_variables)]
pub fn a_star(start_node: NodeID, goal_node: NodeID, road_graph: &RoadGraph, debug: bool) -> (path:
    Vec<RoadID>)
    requires
        road_graph.wf(),
        road_graph.nodes@.contains_key(start_node.0),
        road_graph.nodes@.contains_key(goal_node.0),
    ensures
        valid_route(*road_graph, path@, start_node, goal_node),
        start_node == goal_node ==> path@.len() == 0,
        path@.len() == 0 && start_node != goal_node ==> forall|p: Seq<RoadID>|
            p.len() > 0 ==> !#[trigger] valid_route(*road_graph, p, start_node, goal_node),
{
    if start_node.0 == goal_node.0 {
        return Vec::new();
    }
    let g = road_graph;
    let goal_pos = match g.nodes.get(&goal_node.0) {
        Some(n) => n.position,
        None => unreached(),
    };
    let start_pos = match g.nodes.get(&start_node.0) {
        Some(n) => n.position,
        None => unreached(),
    };

    let mut open: Vec<State> = Vec::new();
    let mut came_from: HashMap<i32, i32> = HashMap::new();
    let mut cost_so_far: HashMap<i32, u64> = HashMap::new();
    let mut closed: HashSet<i32> = HashSet::new();
    let ghost mut birth: Map<i32, nat> = Map::<i32, nat>::empty().insert(start_node.0, 0);
    let ghost mut stamp: nat = 1;

    proof {
        assert(g.nodes@[start_node.0].wf() && g.nodes@[goal_node.0].wf());
    }
    let h0 = saturating_mul64(distance(start_pos, goal_pos), 1000);
    open.push(State::new(start_node, 0, h0));
    cost_so_far.insert(start_node.0, 0);
    proof {
        assert(open@[0].node.0 == start_node.0);
    }

    loop
        invariant
            start_node.0 != goal_node.0,
            cost_so_far@.contains_key(start_node.0),
            cost_so_far@[start_node.0] == 0,
            !came_from@.contains_key(start_node.0),
            forall|k: i32| #[trigger] came_from@.contains_key(k) ==> {
                &&& came_from@[k] == start_node.0 || came_from@.contains_key(came_from@[k])
                &&& usable_edge(*g, came_from@[k], k)
                &&& cost_so_far@.contains_key(k)
                &&& cost_so_far@.contains_key(came_from@[k])
                &&& (cost_so_far@[came_from@[k]] < cost_so_far@[k] || (cost_so_far@[came_from@[k]]
                    == cost_so_far@[k] && birth[came_from@[k]] < birth[k]))
            },
            forall|i: int|
                0 <= i < open@.len() ==> {
                    let st = #[trigger] open@[i];
                    &&& g.nodes@.contains_key(st.node.0)
                    &&& (st.node == start_node || came_from@.contains_key(st.node.0))
                    &&& cost_so_far@.contains_key(st.node.0)
                    &&& cost_so_far@[st.node.0] <= st.cost
                },
            forall|k: i32| #[trigger] cost_so_far@.contains_key(k) ==> birth.contains_key(k)
                && birth[k] < stamp,
            forall|k: i32| #[trigger] cost_so_far@.contains_key(k) ==> closed@.contains(k) || (
            exists|i: int| 0 <= i < open@.len() && (#[trigger] open@[i]).node.0 == k),
            forall|u: i32| #[trigger] closed@.contains(u) ==> expanded(*g, cost_so_far@, u),
            !closed@.contains(goal_node.0),
            closed@.finite(),
            forall|k: i32| #[trigger] closed@.contains(k) ==> g.nodes@.contains_key(k),
            closed@.len() <= g.nodes@.dom().len(),
        decreases g.nodes@.dom().len() - closed@.len(), open@.len(),
    {
        let ghost prev_open = open@;
        let s = match pop_min(&mut open) {
            Some(s) => s,
            None => {
                proof {
                    assert forall|p: Seq<RoadID>|
                        p.len() > 0 implies !valid_route(*g, p, start_node, goal_node) by {
                        if valid_route(*g, p, start_node, goal_node) {
                            assert forall|k: i32| #[trigger] cost_so_far@.contains_key(k)
                                implies closed@.contains(k) by {
                                assert(open@.len() == 0);
                            }
                            lemma_route_end_covered(
                                *g,
                                p,
                                start_node,
                                goal_node,
                                cost_so_far@,
                                closed@,
                            );
                            assert(closed@.contains(goal_node.0));
                        }
                    }
                }
                return Vec::new();
            },
        };
        proof {
            let idx = choose|idx: int|
                0 <= idx < prev_open.len() && prev_open[idx] == s && open@ == prev_open.update(
                    idx,
                    prev_open.last(),
                ).drop_last();
            assert forall|k: i32| #[trigger] cost_so_far@.contains_key(k) implies closed@.contains(
                k,
            ) || (exists|i: int| 0 <= i < open@.len() && (#[trigger] open@[i]).node.0 == k) || k
                == s.node.0 by {
                if !closed@.contains(k) && k != s.node.0 {
                    let w = choose|w: int|
                        0 <= w < prev_open.len() && (#[trigger] prev_open[w]).node.0 == k;
                    if w == prev_open.len() - 1 {
                        assert(w != idx);
                        assert(open@[idx] == prev_open[w]);
                    } else if w != idx {
                        assert(open@[w] == prev_open[w]);
                    }
                }
            }
        }

        if s.node.0 == goal_node.0 {
            let mut node_path: Vec<i32> = Vec::new();
            node_path.push(s.node.0);
            let mut curr: i32 = s.node.0;
            while came_from.contains_key(&curr)
                invariant
                    node_path@.len() >= 1,
                    node_path@[0] == goal_node.0,
                    node_path@[node_path@.len() - 1] == curr,
                    curr == start_node.0 || came_from@.contains_key(curr),
                    cost_so_far@.contains_key(curr),
                    forall|i: int|
                        #![trigger node_path@[i]]
                        0 <= i < node_path@.len() - 1 ==> usable_edge(
                            *g,
                            node_path@[i + 1],
                            node_path@[i],
                        ) && node_path@[i + 1] != node_path@[i],
                decreases cost_so_far@[curr], birth[curr],
            {
                let prev = match came_from.get(&curr) {
                    Some(p) => *p,
                    None => unreached(),
                };
                node_path.push(prev);
                curr = prev;
            }
            proof {
                assert(curr == start_node.0);
                assert(node_path@.len() >= 2);
            }

            let mut road_path: Vec<RoadID> = Vec::new();
            let mut k: usize = node_path.len() - 1;
            while k > 0
                invariant
                    k <= node_path@.len() - 1,
                    road_path@.len() == node_path@.len() - 1 - k,
                    forall|i: int|
                        0 <= i < road_path@.len() ==> {
                            let rid = #[trigger] road_path@[i];
                            &&& g.roads@.contains_key(rid.0)
                            &&& g.roads@[rid.0].from.id.0 == node_path@[node_path@.len() - 1 - i]
                            &&& g.roads@[rid.0].to.id.0 == node_path@[node_path@.len() - 2 - i]
                            &&& one_way_allows(*g, g.roads@[rid.0])
                            &&& g.roads@[rid.0].from.id != g.roads@[rid.0].to.id
                        },
                decreases k,
            {
                let from_key = node_path[k];
                let to_key = node_path[k - 1];
                proof {
                    assert(usable_edge(*g, node_path@[k as int], node_path@[k - 1]));
                }
                let edges = match g.adjacency.get(&from_key) {
                    Some(v) => v,
                    None => unreached(),
                };
                let ghost wit = choose|j: int|
                    0 <= j < g.adjacency@[from_key]@.len() && {
                        let e = #[trigger] g.adjacency@[from_key]@[j];
                        e.0.0 == to_key && one_way_allows(*g, g.roads@[e.1.0])
                    };
                let mut found: Option<RoadID> = None;
                let mut j: usize = 0;
                while j < edges.len() && found.is_none()
                    invariant
                        j <= edges@.len(),
                        edges@ == g.adjacency@[from_key]@,
                        found is None ==> forall|w: int|
                            0 <= w < j ==> !((#[trigger] edges@[w]).0.0 == to_key
                                && one_way_allows(*g, g.roads@[edges@[w].1.0])),
                        found matches Some(rid) ==> {
                            &&& g.roads@.contains_key(rid.0)
                            &&& g.roads@[rid.0].from.id.0 == from_key
                            &&& g.roads@[rid.0].to.id.0 == to_key
                            &&& one_way_allows(*g, g.roads@[rid.0])
                        },
                    decreases edges@.len() - j + (if found is None { 1int } else { 0int }),
                {
                    let e = edges[j];
                    proof {
                        assert(g.adj_entry_ok(from_key, g.adjacency@[from_key]@[j as int]));
                    }
                    if e.0.0 == to_key {
                        let road = match g.roads.get(&e.1.0) {
                            Some(r) => r,
                            None => unreached(),
                        };
                        let mut ok = true;
                        if road.one_way {
                            let from_n = match g.nodes.get(&road.from.id.0) {
                                Some(n) => *n,
                                None => unreached(),
                            };
                            let to_n = match g.nodes.get(&road.to.id.0) {
                                Some(n) => *n,
                                None => unreached(),
                            };
                            let rx = road.to.position.x - road.from.position.x;
                            let ry = road.to.position.y - road.from.position.y;
                            let tx = to_n.position.x - from_n.position.x;
                            let ty = to_n.position.y - from_n.position.y;
                            proof {
                                assert(road.wf());
                                assert(-16_000_000_000_000 <= rx * tx <= 16_000_000_000_000
                                    && -16_000_000_000_000 <= ry * ty <= 16_000_000_000_000)
                                    by (nonlinear_arith)
                                    requires
                                        -4_000_000 <= rx <= 4_000_000,
                                        -4_000_000 <= ry <= 4_000_000,
                                        -4_000_000 <= tx <= 4_000_000,
                                        -4_000_000 <= ty <= 4_000_000,
                                ;
                            }
                            let dot = rx * tx + ry * ty;
                            if dot <= 0 {
                                ok = false;
                            }
                        }
                        if ok {
                            found = Some(e.1);
                        }
                    }
                    if found.is_none() {
                        j = j + 1;
                    }
                }
                let rid = match found {
                    Some(rid) => rid,
                    None => {
                        proof {
                            let e = g.adjacency@[from_key]@[wit];
                            assert(!(e.0.0 == to_key && one_way_allows(*g, g.roads@[e.1.0])));
                        }
                        unreached()
                    },
                };
                road_path.push(rid);
                k = k - 1;
                proof {
                    assert forall|i: int| 0 <= i < road_path@.len() implies {
                        let r = #[trigger] road_path@[i];
                        &&& g.roads@.contains_key(r.0)
                        &&& g.roads@[r.0].from.id.0 == node_path@[node_path@.len() - 1 - i]
                        &&& g.roads@[r.0].to.id.0 == node_path@[node_path@.len() - 2 - i]
                        &&& one_way_allows(*g, g.roads@[r.0])
                        &&& g.roads@[r.0].from.id != g.roads@[r.0].to.id
                    } by {
                        if i < road_path@.len() - 1 {
                            assert(road_path@[i] == road_path@.drop_last()[i]);
                        } else {
                            assert(road_path@[i] == rid);
                            assert(node_path@[k as int] != node_path@[k + 1]);
                        }
                    }
                }
            }
            proof {
                let n = node_path@.len() as int;
                let p = road_path@;
                assert(p.len() == n - 1);
                assert(p.len() > 0);
                assert(g.roads@[p[0].0].from.id.0 == node_path@[n - 1]);
                assert(node_path@[n - 1] == start_node.0);
                assert(g.roads@[p[0].0].from.id == start_node);
                assert(g.roads@[p[p.len() - 1].0].to.id.0 == node_path@[n - 2 - (p.len() - 1)]);
                assert(n - 2 - (p.len() - 1) == 0);
                assert(g.roads@[p[p.len() - 1].0].to.id == goal_node);
                assert forall|i: int| 0 <= i < p.len() - 1 implies g.roads@[(
                #[trigger] p[i]).0].to.id == g.roads@[p[i + 1].0].from.id by {
                    assert(g.roads@[p[i].0].to.id.0 == node_path@[n - 2 - i]);
                    assert(g.roads@[p[i + 1].0].from.id.0 == node_path@[n - 2 - i]);
                }
            }
            return road_path;
        }

        if !closed.contains(&s.node.0) {
            let ghost s_key = s.node.0;
            let edges_opt = g.adjacency.get(&s.node.0);
            match edges_opt {
                None => {},
                Some(edges) => {
                    let mut j: usize = 0;
                    while j < edges.len()
                        invariant
                            j <= edges@.len(),
                            edges@ == g.adjacency@[s_key]@,
                            g.adjacency@.contains_key(s_key),
                            s.node.0 == s_key,
                            start_node.0 != goal_node.0,
                            cost_so_far@.contains_key(start_node.0),
                            cost_so_far@[start_node.0] == 0,
                            cost_so_far@.contains_key(s_key),
                            cost_so_far@[s_key] <= s.cost,
                            s.node == start_node || came_from@.contains_key(s_key),
                            !came_from@.contains_key(start_node.0),
                            forall|k: i32| #[trigger] came_from@.contains_key(k) ==> {
                                &&& came_from@[k] == start_node.0 || came_from@.contains_key(
                                    came_from@[k],
                                )
                                &&& usable_edge(*g, came_from@[k], k)
                                &&& cost_so_far@.contains_key(k)
                                &&& cost_so_far@.contains_key(came_from@[k])
                                &&& (cost_so_far@[came_from@[k]] < cost_so_far@[k] || (
                                cost_so_far@[came_from@[k]] == cost_so_far@[k] && birth[came_from@[
                                k]] < birth[k]))
                            },
                            forall|i: int|
                                0 <= i < open@.len() ==> {
                                    let st = #[trigger] open@[i];
                                    &&& g.nodes@.contains_key(st.node.0)
                                    &&& (st.node == start_node || came_from@.contains_key(
                                        st.node.0,
                                    ))
                                    &&& cost_so_far@.contains_key(st.node.0)
                                    &&& cost_so_far@[st.node.0] <= st.cost
                                },
                            forall|k: i32| #[trigger] cost_so_far@.contains_key(k)
                                ==> birth.contains_key(k) && birth[k] < stamp,
                            forall|k: i32| #[trigger] cost_so_far@.contains_key(k)
                                ==> closed@.contains(k) || (exists|i: int|
                                0 <= i < open@.len() && (#[trigger] open@[i]).node.0 == k) || k
                                == s_key,
                            forall|u: i32| #[trigger] closed@.contains(u) ==> expanded(
                                *g,
                                cost_so_far@,
                                u,
                            ),
                            forall|w: int|
                                0 <= w < j && one_way_allows(
                                    *g,
                                    g.roads@[(#[trigger] g.adjacency@[s_key]@[w]).1.0],
                                ) ==> cost_so_far@.contains_key(g.adjacency@[s_key]@[w].0.0),
                        decreases edges@.len() - j,
                    {
                        let e = edges[j];
                        proof {
                            assert(g.adj_entry_ok(s_key, g.adjacency@[s_key]@[j as int]));
                        }
                        let neighbor = e.0;
                        match g.roads.get(&e.1.0) {
                            None => unreached(),
                            Some(road) => {
                                proof {
                                    assert(road.wf());
                                }
                                let mut allowed = true;
                                if road.one_way {
                                    let from_n = match g.nodes.get(&road.from.id.0) {
                                        Some(n) => *n,
                                        None => unreached(),
                                    };
                                    let to_n = match g.nodes.get(&road.to.id.0) {
                                        Some(n) => *n,
                                        None => unreached(),
                                    };
                                    let rx = road.to.position.x - road.from.position.x;
                                    let ry = road.to.position.y - road.from.position.y;
                                    let tx = to_n.position.x - from_n.position.x;
                                    let ty = to_n.position.y - from_n.position.y;
                                    proof {
                                        assert(-16_000_000_000_000 <= rx * tx
                                            <= 16_000_000_000_000 && -16_000_000_000_000 <= ry * ty
                                            <= 16_000_000_000_000) by (nonlinear_arith)
                                            requires
                                                -4_000_000 <= rx <= 4_000_000,
                                                -4_000_000 <= ry <= 4_000_000,
                                                -4_000_000 <= tx <= 4_000_000,
                                                -4_000_000 <= ty <= 4_000_000,
                                        ;
                                    }
                                    let dot = rx * tx + ry * ty;
                                    if dot <= 0 {
                                        allowed = false;
                                    }
                                }
                                proof {
                                    assert(allowed == one_way_allows(*g, g.roads@[e.1.0]));
                                }
                                if allowed {
                                    let base = if road.length < 1 {
                                        1
                                    } else {
                                        road.length
                                    };
                                    let w = saturating_mul64(
                                        base,
                                        saturating_add64(
                                            1000,
                                            saturating_mul64(3, road.traffic_density),
                                        ),
                                    );
                                    proof {
                                        assert(w == road_weight(*road));
                                        lemma_road_weight_positive(*road);
                                    }
                                    let new_cost = saturating_add64(s.cost, w);
                                    let should_relax = match cost_so_far.get(&neighbor.0) {
                                        Some(c) => new_cost < *c,
                                        None => true,
                                    };
                                    if should_relax {
                                        proof {
                                            assert(neighbor.0 != start_node.0);
                                            assert(neighbor.0 != s_key);
                                        }
                                        let ghost cost_before = cost_so_far@;
                                        let ghost came_before = came_from@;
                                        let ghost birth_before = birth;
                                        cost_so_far.insert(neighbor.0, new_cost);
                                        came_from.insert(neighbor.0, s.node.0);
                                        proof {
                                            if !cost_before.contains_key(neighbor.0) {
                                                birth = birth.insert(neighbor.0, stamp);
                                                stamp = stamp + 1;
                                            }
                                        }
                                        let npos = match g.nodes.get(&neighbor.0) {
                                            Some(n) => n.position,
                                            None => unreached(),
                                        };
                                        proof {
                                            assert(g.nodes@[neighbor.0].wf());
                                        }
                                        let h = saturating_mul64(distance(npos, goal_pos), 1000);
                                        let est = saturating_add64(new_cost, h);
                                        let ghost open_before = open@;
                                        open.push(State::new(neighbor, new_cost, est));
                                        proof {
                                            assert(usable_edge(*g, s_key, neighbor.0)) by {
                                                assert(g.adjacency@[s_key]@[j as int].0.0
                                                    == neighbor.0);
                                            }
                                            assert(cost_so_far@[s_key] < new_cost || (cost_so_far@[
                                            s_key] == new_cost && birth[s_key] < birth[
                                            neighbor.0])) by {
                                                if cost_before.contains_key(neighbor.0) {
                                                    assert(new_cost < cost_before[neighbor.0]);
                                                    assert(new_cost < u64::MAX);
                                                    assert(new_cost == s.cost + w);
                                                } else {
                                                    if new_cost < u64::MAX {
                                                        assert(new_cost == s.cost + w);
                                                    } else {
                                                        assert(birth[neighbor.0] == stamp - 1);
                                                        assert(birth[s_key] < birth[neighbor.0]);
                                                    }
                                                }
                                            }
                                            assert forall|k: i32| #[trigger]
                                                came_from@.contains_key(k) implies {
                                                &&& came_from@[k] == start_node.0
                                                    || came_from@.contains_key(came_from@[k])
                                                &&& usable_edge(*g, came_from@[k], k)
                                                &&& cost_so_far@.contains_key(k)
                                                &&& cost_so_far@.contains_key(came_from@[k])
                                                &&& (cost_so_far@[came_from@[k]] < cost_so_far@[k]
                                                    || (cost_so_far@[came_from@[k]]
                                                    == cost_so_far@[k] && birth[came_from@[k]]
                                                    < birth[k]))
                                            } by {
                                                if k == neighbor.0 {
                                                    assert(came_from@[k] == s_key);
                                                    assert(cost_so_far@[s_key]
                                                        == cost_before[s_key]);
                                                } else {
                                                    assert(came_before.contains_key(k));
                                                    assert(came_from@[k] == came_before[k]);
                                                    if came_before[k] == neighbor.0 {
                                                        assert(cost_before.contains_key(
                                                            neighbor.0,
                                                        ));
                                                        assert(new_cost < cost_before[neighbor.0]);
                                                    }
                                                }
                                            }
                                            assert forall|u: i32| #[trigger] closed@.contains(u)
                                                implies expanded(*g, cost_so_far@, u) by {
                                                lemma_expanded_monotone(
                                                    *g,
                                                    cost_before,
                                                    cost_so_far@,
                                                    u,
                                                );
                                            }
                                            assert forall|k: i32| #[trigger]
                                                cost_so_far@.contains_key(k) implies
                                                closed@.contains(k) || (exists|i: int|
                                                0 <= i < open@.len() && (
                                                #[trigger] open@[i]).node.0 == k) || k == s_key by {
                                                if k == neighbor.0 {
                                                    assert(open@[open@.len() - 1].node.0 == k);
                                                } else if !closed@.contains(k) && k != s_key {
                                                    let i0 = choose|i0: int|
                                                        0 <= i0 < open_before.len() && (
                                                        #[trigger] open_before[i0]).node.0 == k;
                                                    assert(open@[i0].node.0 == k);
                                                }
                                            }
                                        }
                                    }
                                }
                            },
                        }
                        j = j + 1;
                    }
                },
            }
            proof {
                assert(closed@.insert(s.node.0).len() == closed@.len() + 1);
                assert forall|k: i32| #[trigger] closed@.insert(s.node.0).contains(k)
                    implies g.nodes@.contains_key(k) by {}
                assert(closed@.insert(s.node.0) <= g.nodes@.dom());
                vstd::set_lib::lemma_len_subset(closed@.insert(s.node.0), g.nodes@.dom());
            }
            closed.insert(s.node.0);
            proof {
                assert forall|u: i32| #[trigger] closed@.contains(u) implies expanded(
                    *g,
                    cost_so_far@,
                    u,
                ) by {
                    if u == s_key {
                        assert(expanded(*g, cost_so_far@, s_key));
                    }
                }
            }
        }
    }
}

} // verus!