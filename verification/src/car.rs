//! Car agents: identity, per-car movement state, and the mover that walks a
//! car along its current road and hands it over to the next road of its plan.

use vstd::prelude::*;

verus! {

use crate::entropy::random_in_range;
use crate::geom::MAX_CAR_COORD;
use crate::geom::Vec2;
use crate::geom::dist;
use crate::geom::distance;
use crate::geom::div_trunc;
use crate::geom::lemma_component_le_dist;
use crate::geom::lemma_tdiv_bound;
use crate::geom::tdiv;
use crate::geom::vec_sub;
use crate::road::MAX_OCCUPANTS;
use crate::road::NodeID;
use crate::road::Road;
use crate::road::RoadGraph;
use crate::road::RoadID;
use crate::road::occupancy_step;
use crate::router::a_star;
use crate::router::lemma_valid_route_no_adjacent_dup;
use crate::router::lemma_valid_route_tail;
use crate::router::valid_route;

/// Identity of a car, compared and hashed by the underlying integer.
#[derive(Clone, Copy, PartialEq, Eq, Structural, Debug, Hash)]
pub struct CarID(pub i32);

impl CarID {
    /// A random id in `1..1000`, as cars are labelled when none is supplied.
    fn new_rand() -> (id: CarID)
        ensures
            1 <= id.0 < 1000,
    {
        let v = random_in_range(1, 1000);
        CarID(v as i32)
    }
}

impl From<i32> for CarID {
    fn from(value: i32) -> (id: CarID) {
        CarID(value)
    }
}

impl vstd::std_specs::convert::FromSpecImpl<i32> for CarID {
    open spec fn obeys_from_spec() -> bool {
        true
    }

    open spec fn from_spec(value: i32) -> CarID {
        CarID(value)
    }
}

/// A car's per-tick state: where it is on its current road, how fast it goes,
/// the remaining planned route, and its display attributes.
#[derive(Debug)]
pub struct Car {
    pub position: Vec2,
    pub velocity: u32,
    pub acceleration: Vec2,
    pub segment_index: usize,
    pub destination: NodeID,
    pub car_id: CarID,
    pub current_road: RoadID,
    pub path: Vec<RoadID>,
    pub width: u32,
    pub height: u32,
    pub heading: Vec2,
    pub color: (u8, u8, u8, u8),
}

impl Car {
    pub fn get_color(&self) -> (color: (u8, u8, u8, u8))
        ensures
            color == self.color,
    {
        self.color
    }

    /// The direction the car is facing, as the vector of its last segment.
    pub fn get_direction(&self) -> (heading: Vec2)
        ensures
            heading == self.heading,
    {
        self.heading
    }

    pub fn get_width(&self) -> (width: u32)
        ensures
            width == self.width,
    {
        self.width
    }

    pub fn get_height(&self) -> (height: u32)
        ensures
            height == self.height,
    {
        self.height
    }

    /// The car's center offset, half its width and height, rounded down.
    pub fn get_center(&self) -> (center: Vec2)
        ensures
            center.x == self.width as int / 2,
            center.y == self.height as int / 2,
    {
        Vec2 { x: (self.width / 2) as i64, y: (self.height / 2) as i64 }
    }

    pub fn get_id(&self) -> (id: CarID)
        ensures
            id == self.car_id,
    {
        self.car_id
    }

    /// The car is consistent with graph `g`: it sits within coordinate bounds
    /// on a stored road, at a segment index within that road's polyline, and
    /// its plan names stored roads, never starting with the road it is
    /// already on nor repeating a road back to back.
    pub open spec fn wf(self, g: RoadGraph) -> bool {
        &&& self.position.in_range(MAX_CAR_COORD)
        &&& g.roads@.contains_key(self.current_road.0)
        &&& self.segment_index < g.roads@[self.current_road.0].points@.len()
        &&& forall|i: int|
            0 <= i < self.path@.len() ==> g.roads@.contains_key((#[trigger] self.path@[i]).0)
        &&& self.path@.len() > 0 ==> self.path@[0] != self.current_road
        &&& forall|i: int|
            0 <= i < self.path@.len() - 1 ==> #[trigger] self.path@[i] != self.path@[i + 1]
    }

    /// The remaining planned route, current road excluded.
    pub fn get_path(&self) -> (path: Vec<RoadID>)
        ensures
            path@ == self.path@,
    {
        let mut copy: Vec<RoadID> = Vec::new();
        let mut i: usize = 0;
        while i < self.path.len()
            invariant
                i <= self.path.len(),
                copy@ == self.path@.take(i as int),
            decreases self.path.len() - i,
        {
            copy.push(self.path[i]);
            proof {
                assert(copy@ =~= self.path@.take(i + 1));
            }
            i = i + 1;
        }
        proof {
            assert(self.path@.take(self.path@.len() as int) =~= self.path@);
        }
        copy
    }
}

/// The within-road movement step: where one tick of the mover puts the car on
/// road `road`'s polyline, what it then faces, and whether the road is done.
/// A polyline of fewer than two points cannot form a segment and counts as
/// done at once; at the last point the position snaps onto it; otherwise the
/// car either reaches the current segment's target (and snaps to it, facing
/// the next segment if that one has any extent) or moves its tick's travel
/// toward the target along the segment.
pub open spec fn road_move(c: Car, road: Road, dt: u32) -> (Vec2, int, Vec2, bool) {
    let pts = road.points@;
    let n = pts.len() as int;
    if n < 2 {
        (c.position, c.segment_index as int, c.heading, true)
    } else if c.segment_index >= n - 1 {
        (pts[n - 1], c.segment_index as int, c.heading, true)
    } else {
        let target = pts[c.segment_index + 1];
        let d = dist(c.position, target) as int;
        let travel = c.velocity * dt;
        if travel >= d {
            let ni = c.segment_index + 1;
            let done = ni >= n - 1;
            let heading = if ni < n - 1 && pts[ni + 1] != pts[ni] {
                vec_sub(pts[ni + 1], pts[ni])
            } else {
                c.heading
            };
            (target, ni, heading, done)
        } else {
            let dx = target.x - c.position.x;
            let dy = target.y - c.position.y;
            let moved = Vec2 {
                x: (c.position.x + tdiv(dx * travel, d)) as i64,
                y: (c.position.y + tdiv(dy * travel, d)) as i64,
            };
            (moved, c.segment_index as int, vec_sub(target, c.position), false)
        }
    }
}

impl Car {
    /// Advances the car along its current road's polyline by one tick of
    /// `dt` time units, exactly as [`road_move`] describes, and reports
    /// whether the road is complete.
    pub fn move_car_on_road(&mut self, dt: u32, road_graph: &RoadGraph) -> (done: bool)
        requires
            road_graph.wf(),
            old(self).wf(*road_graph),
        ensures
            final(self).wf(*road_graph),
            final(self).velocity == old(self).velocity,
            final(self).acceleration == old(self).acceleration,
            final(self).destination == old(self).destination,
            final(self).car_id == old(self).car_id,
            final(self).current_road == old(self).current_road,
            final(self).path@ == old(self).path@,
            final(self).width == old(self).width,
            final(self).height == old(self).height,
            final(self).color == old(self).color,
            ({
                let step = road_move(*old(self), road_graph.roads@[old(self).current_road.0], dt);
                &&& final(self).position == step.0
                &&& final(self).segment_index == step.1
                &&& final(self).heading == step.2
                &&& done == step.3
            }),
    {
        let road = match road_graph.lookup_road(self.current_road) {
            Ok(r) => r,
            Err(_) => unreached(),
        };
        proof {
            assert(road_graph.roads@.contains_key(self.current_road.0));
            assert(road.wf());
        }
        let n = road.points.len();
        if n < 2 {
            return true;
        }
        if self.segment_index >= n - 1 {
            self.position = road.points[n - 1];
            return true;
        }

        let target = road.points[self.segment_index + 1];
        let v = self.velocity;
        proof {
            assert((v as u64) * (dt as u64) <= u64::MAX) by (nonlinear_arith)
                requires
                    v <= u32::MAX,
                    dt <= u32::MAX,
            ;
        }
        let travel64: u64 = (v as u64) * (dt as u64);
        let d = distance(self.position, target);

        if travel64 >= d {
            self.position = target;
            self.segment_index = self.segment_index + 1;
            if self.segment_index >= n - 1 {
                return true;
            }
            let ns = road.points[self.segment_index];
            let nt = road.points[self.segment_index + 1];
            if nt.x != ns.x || nt.y != ns.y {
                self.heading = Vec2 { x: nt.x - ns.x, y: nt.y - ns.y };
            }
            return false;
        }

        let dx = target.x - self.position.x;
        let dy = target.y - self.position.y;
        proof {
            lemma_component_le_dist(self.position, target);
            assert(d >= 1);
            let cx: int = if dx >= 0 {
                dx as int
            } else {
                -(dx as int)
            };
            let cy: int = if dy >= 0 {
                dy as int
            } else {
                -(dy as int)
            };
            assert((-cx) * d <= dx * travel64 <= cx * d && -(cx * d) <= dx * travel64 && (-cy) * d
                <= dy * travel64 <= cy * d && -(cy * d) <= dy * travel64 && cx * d
                <= 25_000_000_000_000 && cy * d <= 25_000_000_000_000 && (dx >= 0 ==> dx * travel64
                >= 0) && (dx < 0 ==> dx * travel64 <= 0) && (dy >= 0 ==> dy * travel64 >= 0) && (dy
                < 0 ==> dy * travel64 <= 0)) by (nonlinear_arith)
                requires
                    0 <= travel64 < d,
                    d <= 6_000_000,
                    -(cx as int) <= dx as int <= cx as int,
                    -(cy as int) <= dy as int <= cy as int,
                    cx >= 0,
                    cy >= 0,
                    cx <= 4_100_000,
                    cy <= 4_100_000,
            ;
            lemma_tdiv_bound(dx as int * travel64 as int, d as int, cx);
            lemma_tdiv_bound(dy as int * travel64 as int, d as int, cy);
        }
        let qx = div_trunc(dx * (travel64 as i64), d);
        let qy = div_trunc(dy * (travel64 as i64), d);
        proof {
            if dx >= 0 {
                assert(0 <= qx <= dx);
            } else {
                assert(dx <= qx <= 0);
            }
            if dy >= 0 {
                assert(0 <= qy <= dy);
            } else {
                assert(dy <= qy <= 0);
            }
        }
        self.position = Vec2 { x: self.position.x + qx, y: self.position.y + qy };
        self.heading = Vec2 { x: dx, y: dy };
        false
    }
}

/// The car has fully arrived: no plan remains, it stands at the final
/// segment of its current road, and that road ends at its destination.
pub open spec fn arrived(c: Car, g: RoadGraph) -> bool {
    let road = g.roads@[c.current_road.0];
    &&& c.path@.len() == 0
    &&& c.segment_index >= road.points@.len() - 1
    &&& road.to.id == c.destination
}

/// Arrival is a fixed point of the within-road step: a car that has fully
/// arrived and already stands on its road's final point is left by any mover
/// tick exactly where and as it is, with the road still reported complete.
pub proof fn lemma_arrived_car_is_fixed(c: Car, g: RoadGraph, dt: u32)
    requires
        g.wf(),
        c.wf(g),
        arrived(c, g),
        c.position == g.roads@[c.current_road.0].points@.last(),
    ensures
        road_move(c, g.roads@[c.current_road.0], dt) == (
            c.position,
            c.segment_index as int,
            c.heading,
            true,
        ),
{
    let road = g.roads@[c.current_road.0];
    assert(road.wf());
    assert(road.points@.len() >= 2);
}

impl Car {
    /// One full mover tick: advance along the current road; if fully arrived,
    /// rest; if the plan is empty and the road is finished, ask the router
    /// for a fresh plan from the road's end (stripping a leading entry equal
    /// to the current road); and if the road is finished and a plan remains,
    /// transition onto its first road — the only operation that ever changes
    /// `current_road` — moving this car's occupancy from the old road to the
    /// new one. A transition is refused, and the plan dropped, when the new
    /// road's first point lies two or more units away from the car (a
    /// corrupted route) or the new road's occupant list is at its limit.
    #[verifier::rlimit(100)]
    pub fn move_car_to_destination(&mut self, road_graph: &mut RoadGraph, dt: u32, debug: bool)
        requires
            old(road_graph).wf(),
            old(self).wf(*old(road_graph)),
            old(road_graph).nodes@.contains_key(old(self).destination.0),
        ensures
            final(road_graph).wf(),
            final(self).wf(*final(road_graph)),
            final(road_graph).nodes@ == old(road_graph).nodes@,
            final(road_graph).adjacency@ == old(road_graph).adjacency@,
            final(road_graph).cars@ == old(road_graph).cars@,
            final(road_graph).roads@.dom() == old(road_graph).roads@.dom(),
            final(self).velocity == old(self).velocity,
            final(self).acceleration == old(self).acceleration,
            final(self).destination == old(self).destination,
            final(self).car_id == old(self).car_id,
            final(self).width == old(self).width,
            final(self).height == old(self).height,
            final(self).color == old(self).color,
            arrived(*old(self), *old(road_graph)) ==> {
                &&& final(road_graph).roads@ == old(road_graph).roads@
                &&& final(self).current_road == old(self).current_road
                &&& final(self).path@ == old(self).path@
                &&& final(self).segment_index == old(self).segment_index
                &&& final(self).position == old(road_graph).roads@[old(
                    self,
                ).current_road.0].points@.last()
                &&& final(self).heading == old(self).heading
            },
            final(self).current_road == old(self).current_road ==> {
                let step = road_move(
                    *old(self),
                    old(road_graph).roads@[old(self).current_road.0],
                    dt,
                );
                &&& final(road_graph).roads@ == old(road_graph).roads@
                &&& final(self).position == step.0
                &&& final(self).segment_index == step.1
                &&& final(self).heading == step.2
                &&& (final(self).path@ == old(self).path@ || final(self).path@.len() == 0)
            },
            final(self).current_road != old(self).current_road ==> {
                let oldr = old(self).current_road.0;
                let newr = final(self).current_road.0;
                let step = road_move(*old(self), old(road_graph).roads@[oldr], dt);
                &&& step.3
                &&& newr != oldr
                &&& old(road_graph).roads@.contains_key(newr)
                &&& final(road_graph).roads@[oldr].vehicles_on@ == old(
                    road_graph,
                ).roads@[oldr].vehicles_on@.filter(|c: CarID| c != old(self).car_id)
                &&& final(road_graph).roads@[newr].vehicles_on@ == old(
                    road_graph,
                ).roads@[newr].vehicles_on@.push(old(self).car_id)
                &&& occupancy_step(
                    old(road_graph).roads@[oldr],
                    final(road_graph).roads@[oldr],
                    final(road_graph).roads@[oldr].vehicles_on@,
                )
                &&& occupancy_step(
                    old(road_graph).roads@[newr],
                    final(road_graph).roads@[newr],
                    final(road_graph).roads@[newr].vehicles_on@,
                )
                &&& forall|rid: i32|
                    #[trigger] final(road_graph).roads@.contains_key(rid) && rid != oldr && rid
                        != newr ==> final(road_graph).roads@[rid] == old(road_graph).roads@[rid]
                &&& final(self).segment_index == 0
                &&& final(self).position == old(road_graph).roads@[newr].points@[0]
                &&& dist(step.0, old(road_graph).roads@[newr].points@[0]) < 2
                &&& (old(self).path@.len() > 0 ==> final(self).current_road == old(self).path@[0]
                    && final(self).path@ == old(self).path@.subrange(
                    1,
                    old(self).path@.len() as int,
                ))
            },
            (old(self).path@.len() == 0 && final(self).path@.len() > 0) ==> valid_route(
                *old(road_graph),
                final(self).path@,
                old(road_graph).roads@[final(self).current_road.0].to.id,
                old(self).destination,
            ),
            // the transition is owed: a finished road with a ready plan whose
            // next road starts within tolerance and has room must be taken
            ({
                let oldg = *old(road_graph);
                let step = road_move(*old(self), oldg.roads@[old(self).current_road.0], dt);
                (step.3 && old(self).path@.len() > 0 && dist(
                    step.0,
                    oldg.roads@[old(self).path@[0].0].points@[0],
                ) < 2 && oldg.roads@[old(self).path@[0].0].vehicles_on@.len() < MAX_OCCUPANTS)
                    ==> final(self).current_road == old(self).path@[0]
            }),
            // a plan that was not taken on a finished road is dropped, and
            // only a far-off or full next road can be the cause
            ({
                let oldg = *old(road_graph);
                let step = road_move(*old(self), oldg.roads@[old(self).current_road.0], dt);
                (step.3 && old(self).path@.len() > 0 && final(self).current_road == old(
                    self,
                ).current_road) ==> (final(self).path@.len() == 0 && (dist(
                    step.0,
                    oldg.roads@[old(self).path@[0].0].points@[0],
                ) >= 2 || oldg.roads@[old(self).path@[0].0].vehicles_on@.len() >= MAX_OCCUPANTS))
            }),
            // routing is owed: with the road finished, no plan and the
            // destination elsewhere, the car stays plan-less on its road only
            // when no valid route exists at all, or when a valid route from
            // there begins with a far-off or full road — the freshly routed
            // plan's first road was refused at hand-off
            ({
                let oldg = *old(road_graph);
                let step = road_move(*old(self), oldg.roads@[old(self).current_road.0], dt);
                let anchor = oldg.roads@[old(self).current_road.0].to.id;
                (step.3 && old(self).path@.len() == 0 && anchor != old(self).destination
                    && final(self).current_road == old(self).current_road
                    && final(self).path@.len() == 0) ==> ((
                forall|p: Seq<RoadID>|
                    p.len() > 0 ==> !#[trigger] valid_route(
                        oldg,
                        p,
                        anchor,
                        old(self).destination,
                    )) || (exists|r: Seq<RoadID>|
                    r.len() > 0 && #[trigger] valid_route(oldg, r, anchor, old(self).destination)
                        && (dist(step.0, oldg.roads@[r[0].0].points@[0]) >= 2 || oldg.roads@[
                    r[0].0].vehicles_on@.len() >= MAX_OCCUPANTS)))
            }),
    {
        let destination = self.destination;
        let ghost mut routed: Seq<RoadID> = Seq::empty();
        let done = self.move_car_on_road(dt, road_graph);
        let (n, to_id) = match road_graph.lookup_road(self.current_road) {
            Ok(r) => (r.points.len(), r.to.id),
            Err(_) => unreached(),
        };
        proof {
            assert(road_graph.roads@[self.current_road.0].wf());
            assert(n >= 2);
        }

        if self.path.len() == 0 && self.segment_index >= n - 1 && to_id.0 == destination.0 {
            return;
        }

        if self.path.len() == 0 {
            if self.segment_index < n - 1 {
                return;
            }
            let route = a_star(to_id, destination, road_graph, debug);
            proof {
                lemma_valid_route_no_adjacent_dup(
                    *road_graph,
                    route@,
                    to_id,
                    destination,
                );
            }
            self.path = route;
            proof {
                routed = self.path@;
                if self.path@.len() > 0 {
                    if self.path@[0] == self.current_road {
                        assert(road_graph.roads@[self.path@[0].0].from.id == to_id);
                        assert(road_graph.roads@[self.path@[0].0].to.id == to_id);
                        assert(road_graph.roads@[self.path@[0].0].from.id != road_graph.roads@[
                        self.path@[0].0].to.id);
                    }
                    assert(self.path@[0] != self.current_road);
                }
            }
            if self.path.len() > 0 && self.path[0].0 == self.current_road.0 {
                let ghost full = self.path@;
                self.path.remove(0);
                proof {
                    assert(self.path@ == full.subrange(1, full.len() as int));
                    lemma_valid_route_tail(*road_graph, full, to_id, destination);
                    assert(road_graph.roads@[full[0].0].to.id == to_id);
                    assert(self.path@.len() > 0 ==> self.path@[0] == full[1]
                        && self.path@[0] != full[0]);
                    assert(forall|i: int|
                        0 <= i < self.path@.len() ==> #[trigger] self.path@[i] == full[i + 1]);
                }
            }
        }

        if done {
            if self.path.len() > 0 {
                let next_road_id = self.path[0];
                let (np0, np1, nlen, nocc) = match road_graph.lookup_road(next_road_id) {
                    Ok(r) => (
                        r.points[0],
                        if r.points.len() >= 2 {
                            r.points[1]
                        } else {
                            r.points[0]
                        },
                        r.points.len(),
                        r.vehicles_on.len(),
                    ),
                    Err(_) => unreached(),
                };
                proof {
                    assert(road_graph.roads@[next_road_id.0].wf());
                }
                let dgap = distance(self.position, np0);
                if dgap < 2 && nocc < MAX_OCCUPANTS {
                    self.path.remove(0);
                    let car_id = self.car_id;
                    let prev_road = self.current_road;
                    let ghost mid_graph = *road_graph;
                    match road_graph.leave_road(car_id, prev_road) {
                        Ok(_) => (),
                        Err(_) => unreached(),
                    }
                    proof {
                        assert(next_road_id.0 != prev_road.0);
                        assert(road_graph.roads@.remove(prev_road.0) == mid_graph.roads@.remove(
                            prev_road.0,
                        ));
                        assert(mid_graph.roads@.remove(prev_road.0).contains_key(next_road_id.0)
                            && mid_graph.roads@.remove(prev_road.0)[next_road_id.0]
                            == mid_graph.roads@[next_road_id.0]);
                        assert(road_graph.roads@.remove(prev_road.0).contains_key(next_road_id.0));
                        assert(road_graph.roads@.contains_key(next_road_id.0)
                            && road_graph.roads@[next_road_id.0] == mid_graph.roads@[
                        next_road_id.0]);
                    }
                    let ghost after_leave = *road_graph;
                    self.current_road = next_road_id;
                    match road_graph.enter_road(car_id, next_road_id) {
                        Ok(_) => (),
                        Err(_) => unreached(),
                    }
                    self.segment_index = 0;
                    self.position = np0;
                    if nlen >= 2 && (np1.x != np0.x || np1.y != np0.y) {
                        self.heading = Vec2 { x: np1.x - np0.x, y: np1.y - np0.y };
                    }
                    proof {
                        let oldg = *old(road_graph);
                        let newg = *road_graph;
                        assert(newg.roads@.remove(next_road_id.0) == after_leave.roads@.remove(
                            next_road_id.0,
                        ));
                        assert(after_leave.roads@.remove(next_road_id.0).contains_key(prev_road.0)
                            && after_leave.roads@.remove(next_road_id.0)[prev_road.0]
                            == after_leave.roads@[prev_road.0]);
                        assert(newg.roads@.contains_key(prev_road.0) && newg.roads@[prev_road.0]
                            == after_leave.roads@[prev_road.0]);
                        assert forall|rid: i32|
                            #[trigger] newg.roads@.contains_key(rid) && rid != prev_road.0 && rid
                                != next_road_id.0 implies newg.roads@[rid] == oldg.roads@[rid] by {
                            assert(newg.roads@.remove(next_road_id.0).contains_key(rid));
                            assert(newg.roads@.remove(next_road_id.0)[rid] == newg.roads@[rid]);
                            assert(after_leave.roads@.remove(next_road_id.0).contains_key(rid)
                                && after_leave.roads@.remove(next_road_id.0)[rid]
                                == newg.roads@.remove(next_road_id.0)[rid]);
                            assert(after_leave.roads@[rid] == newg.roads@[rid]);
                            assert(after_leave.roads@.remove(prev_road.0).contains_key(rid));
                            assert(after_leave.roads@.remove(prev_road.0)[rid]
                                == after_leave.roads@[rid]);
                            assert(mid_graph.roads@.remove(prev_road.0).contains_key(rid)
                                && mid_graph.roads@.remove(prev_road.0)[rid]
                                == after_leave.roads@.remove(prev_road.0)[rid]);
                            assert(mid_graph.roads@[rid] == after_leave.roads@[rid]);
                        }
                        assert forall|rid: i32|
                            newg.roads@.contains_key(rid) <==> #[trigger] oldg.roads@.contains_key(
                                rid,
                            ) by {
                            if rid == prev_road.0 {
                            } else if rid == next_road_id.0 {
                            } else {
                                assert(newg.roads@.contains_key(rid)
                                    <==> newg.roads@.remove(next_road_id.0).contains_key(rid));
                                assert(after_leave.roads@.contains_key(rid)
                                    <==> after_leave.roads@.remove(prev_road.0).contains_key(rid));
                            }
                        }
                        assert(newg.roads@.dom() =~= oldg.roads@.dom());
                    }
                } else {
                    proof {
                        if old(self).path@.len() == 0 {
                            assert(self.path@ == routed);
                            assert(next_road_id == routed[0]);
                        }
                    }
                    self.path = Vec::new();
                }
            }
        }
    }
}

/// Where a car spawns on a road's first segment: `offset` units from `start`
/// toward `next` (rounded toward `start`), or on `start` itself when the
/// segment has no extent.
pub open spec fn spawn_position(start: Vec2, next: Vec2, offset: int) -> Vec2 {
    let len = dist(start, next) as int;
    if len == 0 {
        start
    } else {
        Vec2 {
            x: (start.x + tdiv((next.x - start.x) * offset, len)) as i64,
            y: (start.y + tdiv((next.y - start.y) * offset, len)) as i64,
        }
    }
}

impl Car {
    /// Places a car with the given id, color and spawn offset on a road of
    /// the graph, registering its occupancy there. The deterministic core of
    /// [`Car::new_on_road`].
    pub fn new_on_road_with_offset(
        car_id: CarID,
        road: RoadID,
        road_graph: &mut RoadGraph,
        velocity: u32,
        destination: NodeID,
        offset: i64,
        color: (u8, u8, u8, u8),
    ) -> (car: Car)
        requires
            old(road_graph).wf(),
            old(road_graph).roads@.contains_key(road.0),
            old(road_graph).roads@[road.0].vehicles_on@.len() < MAX_OCCUPANTS,
            0 <= offset <= 10,
        ensures
            final(road_graph).wf(),
            car.wf(*final(road_graph)),
            final(road_graph).nodes@ == old(road_graph).nodes@,
            final(road_graph).adjacency@ == old(road_graph).adjacency@,
            final(road_graph).cars@ == old(road_graph).cars@,
            final(road_graph).roads@.contains_key(road.0),
            occupancy_step(
                old(road_graph).roads@[road.0],
                final(road_graph).roads@[road.0],
                old(road_graph).roads@[road.0].vehicles_on@.push(car_id),
            ),
            final(road_graph).roads@.remove(road.0) == old(road_graph).roads@.remove(road.0),
            car.car_id == car_id,
            car.current_road == road,
            car.velocity == velocity,
            car.destination == destination,
            car.segment_index == 0,
            car.path@.len() == 0,
            car.acceleration == (Vec2 { x: 0, y: 0 }),
            car.width == 5,
            car.height == 15,
            car.color == color,
            ({
                let pts = old(road_graph).roads@[road.0].points@;
                &&& car.position == spawn_position(pts[0], pts[1], offset as int)
                &&& car.heading == vec_sub(pts[1], pts[0])
            }),
    {
        let (start, next) = match road_graph.lookup_road(road) {
            Ok(r) => (r.points[0], r.points[1]),
            Err(_) => unreached(),
        };
        proof {
            assert(road_graph.roads@[road.0].wf());
        }
        let len = distance(start, next);
        let position = if len == 0 {
            start
        } else {
            let dx = next.x - start.x;
            let dy = next.y - start.y;
            proof {
                lemma_component_le_dist(start, next);
                assert((-10) * len <= dx * offset <= 10 * len && (-10) * len <= dy * offset <= 10
                    * len && -(10 * (len as int)) <= dx * offset && -(10 * (len as int)) <= dy
                    * offset) by (nonlinear_arith)
                    requires
                        1 <= len <= 6_000_000,
                        0 <= offset <= 10,
                        -(len as int) <= dx as int <= len as int,
                        -(len as int) <= dy as int <= len as int,
                ;
                lemma_tdiv_bound(dx as int * offset as int, len as int, 10);
                lemma_tdiv_bound(dy as int * offset as int, len as int, 10);
            }
            let qx = div_trunc(dx * offset, len);
            let qy = div_trunc(dy * offset, len);
            Vec2 { x: start.x + qx, y: start.y + qy }
        };
        let heading = Vec2 { x: next.x - start.x, y: next.y - start.y };

        match road_graph.enter_road(car_id, road) {
            Ok(_) => (),
            Err(_) => unreached(),
        }

        Car {
            position,
            velocity,
            acceleration: Vec2 { x: 0, y: 0 },
            segment_index: 0,
            destination,
            car_id,
            current_road: road,
            path: Vec::new(),
            width: 5,
            height: 15,
            heading,
            color,
        }
    }

    /// Spawns a car on the given road of a graph: a random offset up to ten
    /// units into the first segment keeps cars from stacking on the road's
    /// start exactly, the display color is drawn at random, and so is the id
    /// when none is supplied.
    pub fn new_on_road(
        car_id: Option<CarID>,
        road: RoadID,
        road_graph: &mut RoadGraph,
        velocity: u32,
        destination: NodeID,
    ) -> (car: Car)
        requires
            old(road_graph).wf(),
            old(road_graph).roads@.contains_key(road.0),
            old(road_graph).roads@[road.0].vehicles_on@.len() < MAX_OCCUPANTS,
        ensures
            final(road_graph).wf(),
            car.wf(*final(road_graph)),
            final(road_graph).nodes@ == old(road_graph).nodes@,
            final(road_graph).adjacency@ == old(road_graph).adjacency@,
            final(road_graph).cars@ == old(road_graph).cars@,
            final(road_graph).roads@.contains_key(road.0),
            occupancy_step(
                old(road_graph).roads@[road.0],
                final(road_graph).roads@[road.0],
                old(road_graph).roads@[road.0].vehicles_on@.push(car.car_id),
            ),
            final(road_graph).roads@.remove(road.0) == old(road_graph).roads@.remove(road.0),
            car_id matches Some(id) ==> car.car_id == id,
            car_id is None ==> 1 <= car.car_id.0 < 1000,
            car.current_road == road,
            car.velocity == velocity,
            car.destination == destination,
            car.segment_index == 0,
            car.path@.len() == 0,
            car.acceleration == (Vec2 { x: 0, y: 0 }),
            car.width == 5,
            car.height == 15,
            ({
                let pts = old(road_graph).roads@[road.0].points@;
                &&& car.heading == vec_sub(pts[1], pts[0])
                &&& exists|offset: int|
                    0 <= offset < 10 && car.position == spawn_position(pts[0], pts[1], offset)
            }),
    {
        let id = match car_id {
            Some(id) => id,
            None => CarID::new_rand(),
        };
        let offset = random_in_range(0, 10);
        let r = random_in_range(0, 256) as u8;
        let g = random_in_range(0, 256) as u8;
        let b = random_in_range(0, 256) as u8;
        let color = (r, g, b, 255u8);
        let car = Car::new_on_road_with_offset(
            id,
            road,
            road_graph,
            velocity,
            destination,
            offset,
            color,
        );
        proof {
            let pts = old(road_graph).roads@[road.0].points@;
            assert(0 <= offset < 10 && car.position == spawn_position(
                pts[0],
                pts[1],
                offset as int,
            ));
        }
        car
    }
}

impl RoadGraph {
    /// Places a new car at a random offset into the given road's first
    /// segment, registers its occupancy and its entry in the car registry,
    /// assigns a random display color, and returns its (random) id.
    pub fn spawn_car(&mut self, road: RoadID, velocity: u32, destination: NodeID) -> (id: CarID)
        requires
            old(self).wf(),
            old(self).roads@.contains_key(road.0),
            old(self).roads@[road.0].vehicles_on@.len() < MAX_OCCUPANTS,
        ensures
            final(self).wf(),
            final(self).nodes@ == old(self).nodes@,
            final(self).adjacency@ == old(self).adjacency@,
            final(self).roads@.contains_key(road.0),
            occupancy_step(
                old(self).roads@[road.0],
                final(self).roads@[road.0],
                old(self).roads@[road.0].vehicles_on@.push(id),
            ),
            final(self).roads@.remove(road.0) == old(self).roads@.remove(road.0),
            final(self).cars@.contains_key(id.0),
            final(self).cars@ == old(self).cars@.insert(id.0, final(self).cars@[id.0]),
            ({
                let car = final(self).cars@[id.0];
                &&& car.wf(*final(self))
                &&& car.car_id == id
                &&& car.current_road == road
                &&& car.velocity == velocity
                &&& car.destination == destination
                &&& car.segment_index == 0
                &&& car.path@.len() == 0
            }),
            1 <= id.0 < 1000,
    {
        let car = Car::new_on_road(None, road, self, velocity, destination);
        let id = car.get_id();
        self.add_car(car);
        id
    }
}

} // verus!
