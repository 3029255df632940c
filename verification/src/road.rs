//! The road network: nodes, roads with occupancy bookkeeping, curve sampling,
//! and the graph that owns them together with its adjacency index.

use vstd::prelude::*;

verus! {

broadcast use vstd::std_specs::hash::group_hash_axioms;

use std::collections::HashMap;

use crate::car::Car;
use crate::car::CarID;
use crate::entropy::random_in_range;
use crate::geom::MAX_CAR_COORD;
use crate::geom::MAX_NODE_COORD;
use crate::geom::MAX_POINT_COORD;
use crate::geom::Vec2;
use crate::geom::dist;
use crate::geom::distance;
use crate::geom::div_trunc;
use crate::geom::lemma_component_le_dist;
use crate::geom::lemma_tdiv_bound;
use crate::geom::lemma_tdiv_exact;
use crate::geom::tdiv;

/// Identity of a node, compared and hashed by the underlying integer.
#[derive(Clone, Copy, PartialEq, Eq, Structural, Debug, Hash, Default)]
pub struct NodeID(pub i32);

impl From<i32> for NodeID {
    fn from(value: i32) -> (id: NodeID) {
        NodeID(value)
    }
}

impl vstd::std_specs::convert::FromSpecImpl<i32> for NodeID {
    open spec fn obeys_from_spec() -> bool {
        true
    }

    open spec fn from_spec(value: i32) -> NodeID {
        NodeID(value)
    }
}

impl From<NodeID> for i32 {
    fn from(value: NodeID) -> (raw: i32) {
        value.0
    }
}

impl vstd::std_specs::convert::FromSpecImpl<NodeID> for i32 {
    open spec fn obeys_from_spec() -> bool {
        true
    }

    open spec fn from_spec(value: NodeID) -> i32 {
        value.0
    }
}

/// An intersection or road endpoint with a fixed position.
#[derive(Clone, Copy, PartialEq, Eq, Structural, Debug)]
pub struct Node {
    pub id: NodeID,
    pub position: Vec2,
}

impl Node {
    /// The position fits in the coordinate box every node must lie in.
    pub open spec fn wf(self) -> bool {
        self.position.in_range(MAX_NODE_COORD)
    }

    pub fn new_node(id: NodeID, position: Vec2) -> (n: Node)
        requires
            position.in_range(MAX_NODE_COORD),
        ensures
            n == (Node { id, position }),
    {
        Node { id, position }
    }
}

impl Default for Node {
    fn default() -> (n: Node)
        ensures
            n == (Node { id: NodeID(0), position: Vec2 { x: 0, y: 0 } }),
    {
        Node::new_node(NodeID(0), Vec2::new(0, 0))
    }
}

/// Identity of a road, compared and hashed by the underlying integer.
#[derive(Clone, Copy, PartialEq, Eq, Structural, Debug, Hash, Default)]
pub struct RoadID(pub i32);

/// Largest curviness magnitude a curved road may be built with.
pub const MAX_CURVINESS: i64 = 500_000;

/// Largest step count the curve sampler accepts.
pub const MAX_BEZIER_STEPS: u64 = 1000;

/// Largest number of cars a single road can register.
pub const MAX_OCCUPANTS: usize = 1_000_000;

/// A directed edge between two nodes, carrying capacity, occupancy, a one-way
/// flag, and the sampled polyline that cars actually drive along.
#[derive(Debug)]
pub struct Road {
    pub id: RoadID,
    pub from: Node,
    pub to: Node,
    pub length: u64,
    pub capacity: i32,
    pub vehicles_on: Vec<CarID>,
    pub num_vehicles_on: i32,
    pub speed_limit: u32,
    pub one_way: bool,
    pub traffic_density: u64,
    pub points: Vec<Vec2>,
}

impl Road {
    /// Field-by-field agreement, the occupant set and polyline compared by
    /// their contents.
    pub open spec fn congruent(self, other: Road) -> bool {
        &&& self.id == other.id
        &&& self.from == other.from
        &&& self.to == other.to
        &&& self.length == other.length
        &&& self.capacity == other.capacity
        &&& self.vehicles_on@ == other.vehicles_on@
        &&& self.num_vehicles_on == other.num_vehicles_on
        &&& self.speed_limit == other.speed_limit
        &&& self.one_way == other.one_way
        &&& self.traffic_density == other.traffic_density
        &&& self.points@ == other.points@
    }
}

impl Clone for Road {
    fn clone(&self) -> (copy: Road)
        ensures
            copy.congruent(*self),
    {
        Road {
            id: self.id,
            from: self.from,
            to: self.to,
            length: self.length,
            capacity: self.capacity,
            vehicles_on: vstd::slice::slice_to_vec(self.vehicles_on.as_slice()),
            num_vehicles_on: self.num_vehicles_on,
            speed_limit: self.speed_limit,
            one_way: self.one_way,
            traffic_density: self.traffic_density,
            points: vstd::slice::slice_to_vec(self.points.as_slice()),
        }
    }
}

impl Road {
    /// Congestion in thousandths: occupants divided by capacity.
    pub open spec fn density_of(occupants: int, capacity: int) -> int {
        occupants * 1000 / capacity
    }

    /// The road's internal invariant: a positive capacity, a dense counter and
    /// density that agree with the occupant set, and a polyline of at least
    /// two in-range points that starts at `from` and ends at `to`.
    pub open spec fn wf(self) -> bool {
        &&& self.capacity >= 1
        &&& self.num_vehicles_on == self.vehicles_on.len()
        &&& self.vehicles_on.len() <= MAX_OCCUPANTS
        &&& self.traffic_density == Self::density_of(
            self.vehicles_on.len() as int,
            self.capacity as int,
        )
        &&& self.points.len() >= 2
        &&& self.points[0] == self.from.position
        &&& self.points[self.points.len() - 1] == self.to.position
        &&& self.length == dist(self.from.position, self.to.position)
        &&& forall|k: int|
            0 <= k < self.points.len() ==> (#[trigger] self.points[k]).in_range(MAX_POINT_COORD)
        &&& self.from.wf()
        &&& self.to.wf()
    }
}

/// Numerator of a cubic Bezier coordinate at parameter `i / steps`.
pub open spec fn bezier_num(a: int, b: int, c: int, d: int, i: int, steps: int) -> int {
    let u = steps - i;
    ((u * u) * u) * a + (3 * ((u * u) * i)) * b + (3 * ((u * i) * i)) * c + ((i * i) * i) * d
}

/// A cubic Bezier coordinate at parameter `i / steps`, rounded toward zero.
pub open spec fn bezier_coord(a: int, b: int, c: int, d: int, i: int, steps: int) -> int {
    tdiv(bezier_num(a, b, c, d, i, steps), (steps * steps) * steps)
}

/// The full Bezier point at parameter `i / steps` for four control points.
pub open spec fn bezier_point_at(points: [Vec2; 4], i: int, steps: int) -> Vec2 {
    Vec2 {
        x: bezier_coord(
            points[0].x as int,
            points[1].x as int,
            points[2].x as int,
            points[3].x as int,
            i,
            steps,
        ) as i64,
        y: bezier_coord(
            points[0].y as int,
            points[1].y as int,
            points[2].y as int,
            points[3].y as int,
            i,
            steps,
        ) as i64,
    }
}

/// The Bezier numerator is a weighted average: it stays within `m` times the
/// cube of `steps` whenever all four control coordinates stay within `m`.
proof fn lemma_bezier_num_bound(a: int, b: int, c: int, d: int, i: int, steps: int, m: int)
    requires
        0 <= i <= steps,
        1 <= steps,
        0 <= m,
        -m <= a <= m,
        -m <= b <= m,
        -m <= c <= m,
        -m <= d <= m,
    ensures
        -m * ((steps * steps) * steps) <= bezier_num(a, b, c, d, i, steps),
        bezier_num(a, b, c, d, i, steps) <= m * ((steps * steps) * steps),
{
    let u = steps - i;
    let w0 = (u * u) * u;
    let w1 = 3 * ((u * u) * i);
    let w2 = 3 * ((u * i) * i);
    let w3 = (i * i) * i;
    assert((steps * steps) * steps == w0 + w1 + w2 + w3) by (nonlinear_arith)
        requires
            u == steps - i,
            w0 == (u * u) * u,
            w1 == 3 * ((u * u) * i),
            w2 == 3 * ((u * i) * i),
            w3 == (i * i) * i,
    ;
    assert(0 <= w0 && 0 <= w1 && 0 <= w2 && 0 <= w3) by (nonlinear_arith)
        requires
            0 <= u,
            0 <= i,
            w0 == (u * u) * u,
            w1 == 3 * ((u * u) * i),
            w2 == 3 * ((u * i) * i),
            w3 == (i * i) * i,
    ;
    assert(-m * w0 <= w0 * a <= m * w0) by (nonlinear_arith)
        requires
            0 <= w0,
            -m <= a <= m,
    ;
    assert(-m * w1 <= w1 * b <= m * w1) by (nonlinear_arith)
        requires
            0 <= w1,
            -m <= b <= m,
    ;
    assert(-m * w2 <= w2 * c <= m * w2) by (nonlinear_arith)
        requires
            0 <= w2,
            -m <= c <= m,
    ;
    assert(-m * w3 <= w3 * d <= m * w3) by (nonlinear_arith)
        requires
            0 <= w3,
            -m <= d <= m,
    ;
    assert(-m * (w0 + w1 + w2 + w3) <= w0 * a + w1 * b + w2 * c + w3 * d <= m * (w0 + w1 + w2
        + w3)) by (nonlinear_arith)
        requires
            -m * w0 <= w0 * a <= m * w0,
            -m * w1 <= w1 * b <= m * w1,
            -m * w2 <= w2 * c <= m * w2,
            -m * w3 <= w3 * d <= m * w3,
    ;
    assert(bezier_num(a, b, c, d, i, steps) == w0 * a + w1 * b + w2 * c + w3 * d);
    assert(m * ((steps * steps) * steps) == m * (w0 + w1 + w2 + w3) && -m * ((steps * steps)
        * steps) == -m * (w0 + w1 + w2 + w3)) by (nonlinear_arith)
        requires
            (steps * steps) * steps == w0 + w1 + w2 + w3,
    ;
}

/// Evaluates a cubic Bezier curve at parameter `i / steps` in exact integer
/// arithmetic, rounding each coordinate toward zero.
pub fn bezier_point(points: [Vec2; 4], i: u64, steps: u64) -> (p: Vec2)
    requires
        1 <= steps <= MAX_BEZIER_STEPS,
        i <= steps,
        forall|k: int| 0 <= k < 4 ==> (#[trigger] points[k]).in_range(MAX_POINT_COORD),
    ensures
        p == bezier_point_at(points, i as int, steps as int),
        p.in_range(MAX_POINT_COORD),
        i == 0 ==> p == points[0],
        i == steps ==> p == points[3],
{
    let u: i64 = (steps - i) as i64;
    let t: i64 = i as i64;
    let s: i64 = steps as i64;

    proof {
        assert(0 <= u * u <= 1_000_000 && 0 <= u * t <= 1_000_000 && 0 <= t * t <= 1_000_000 && 1
            <= s * s <= 1_000_000) by (nonlinear_arith)
            requires
                0 <= u <= 1000,
                0 <= t <= 1000,
                1 <= s <= 1000,
        ;
    }
    let uu: i64 = u * u;
    let ut: i64 = u * t;
    let tt: i64 = t * t;
    let ss: i64 = s * s;
    proof {
        assert(0 <= uu * u <= 1_000_000_000 && 0 <= uu * t <= 1_000_000_000 && 0 <= ut * t
            <= 1_000_000_000 && 0 <= tt * t <= 1_000_000_000 && 1 <= ss * s <= 1_000_000_000)
            by (nonlinear_arith)
            requires
                0 <= u <= 1000,
                0 <= t <= 1000,
                1 <= s <= 1000,
                0 <= uu <= 1_000_000,
                0 <= ut <= 1_000_000,
                0 <= tt <= 1_000_000,
                1 <= ss <= 1_000_000,
        ;
    }
    let uuu: i64 = uu * u;
    let uut: i64 = uu * t;
    let utt: i64 = ut * t;
    let ttt: i64 = tt * t;
    let den: i64 = ss * s;
    let cb: i64 = 3 * uut;
    let cc: i64 = 3 * utt;

    let num_x: i64 = {
        proof {
            assert(-6_000_000_000_000_000 <= uuu * points[0].x <= 6_000_000_000_000_000
                && -6_000_000_000_000_000 <= cb * points[1].x <= 6_000_000_000_000_000
                && -6_000_000_000_000_000 <= cc * points[2].x <= 6_000_000_000_000_000
                && -6_000_000_000_000_000 <= ttt * points[3].x <= 6_000_000_000_000_000)
                by (nonlinear_arith)
                requires
                    0 <= uuu <= 1_000_000_000,
                    0 <= cb <= 3_000_000_000,
                    0 <= cc <= 3_000_000_000,
                    0 <= ttt <= 1_000_000_000,
                    forall|k: int| 0 <= k < 4 ==> (#[trigger] points[k]).in_range(
                        MAX_POINT_COORD,
                    ),
            ;
        }
        uuu * points[0].x + cb * points[1].x + cc * points[2].x + ttt * points[3].x
    };
    let num_y: i64 = {
        proof {
            assert(-6_000_000_000_000_000 <= uuu * points[0].y <= 6_000_000_000_000_000
                && -6_000_000_000_000_000 <= cb * points[1].y <= 6_000_000_000_000_000
                && -6_000_000_000_000_000 <= cc * points[2].y <= 6_000_000_000_000_000
                && -6_000_000_000_000_000 <= ttt * points[3].y <= 6_000_000_000_000_000)
                by (nonlinear_arith)
                requires
                    0 <= uuu <= 1_000_000_000,
                    0 <= cb <= 3_000_000_000,
                    0 <= cc <= 3_000_000_000,
                    0 <= ttt <= 1_000_000_000,
                    forall|k: int| 0 <= k < 4 ==> (#[trigger] points[k]).in_range(
                        MAX_POINT_COORD,
                    ),
            ;
        }
        uuu * points[0].y + cb * points[1].y + cc * points[2].y + ttt * points[3].y
    };

    proof {
        lemma_bezier_num_bound(
            points[0].x as int,
            points[1].x as int,
            points[2].x as int,
            points[3].x as int,
            i as int,
            steps as int,
            MAX_POINT_COORD as int,
        );
        lemma_bezier_num_bound(
            points[0].y as int,
            points[1].y as int,
            points[2].y as int,
            points[3].y as int,
            i as int,
            steps as int,
            MAX_POINT_COORD as int,
        );
        lemma_tdiv_bound(
            bezier_num(
                points[0].x as int,
                points[1].x as int,
                points[2].x as int,
                points[3].x as int,
                i as int,
                steps as int,
            ),
            den as int,
            MAX_POINT_COORD as int,
        );
        lemma_tdiv_bound(
            bezier_num(
                points[0].y as int,
                points[1].y as int,
                points[2].y as int,
                points[3].y as int,
                i as int,
                steps as int,
            ),
            den as int,
            MAX_POINT_COORD as int,
        );
        if i == 0 {
            assert(num_x == points[0].x * den && num_y == points[0].y * den) by (nonlinear_arith)
                requires
                    t == 0,
                    u == s,
                    num_x == ((u * u) * u) * points[0].x + (3 * ((u * u) * t)) * points[1].x + (3 * (
                    (u * t) * t)) * points[2].x + ((t * t) * t) * points[3].x,
                    num_y == ((u * u) * u) * points[0].y + (3 * ((u * u) * t)) * points[1].y + (3 * (
                    (u * t) * t)) * points[2].y + ((t * t) * t) * points[3].y,
                    den == (s * s) * s,
            ;
            lemma_tdiv_exact(points[0].x as int, den as int);
            lemma_tdiv_exact(points[0].y as int, den as int);
        }
        if i == steps {
            assert(num_x == points[3].x * den && num_y == points[3].y * den) by (nonlinear_arith)
                requires
                    t == s,
                    u == 0,
                    num_x == ((u * u) * u) * points[0].x + (3 * ((u * u) * t)) * points[1].x + (3 * (
                    (u * t) * t)) * points[2].x + ((t * t) * t) * points[3].x,
                    num_y == ((u * u) * u) * points[0].y + (3 * ((u * u) * t)) * points[1].y + (3 * (
                    (u * t) * t)) * points[2].y + ((t * t) * t) * points[3].y,
                    den == (s * s) * s,
            ;
            lemma_tdiv_exact(points[3].x as int, den as int);
            lemma_tdiv_exact(points[3].y as int, den as int);
        }
    }

    let px = div_trunc(num_x, den as u64);
    let py = div_trunc(num_y, den as u64);
    Vec2 { x: px, y: py }
}

/// Samples a cubic Bezier curve at `steps + 1` evenly spaced parameters,
/// keeping both endpoints exactly.
pub fn sample_bezier(points: [Vec2; 4], steps: u64) -> (samples: Vec<Vec2>)
    requires
        1 <= steps <= MAX_BEZIER_STEPS,
        forall|k: int| 0 <= k < 4 ==> (#[trigger] points[k]).in_range(MAX_POINT_COORD),
    ensures
        samples@.len() == steps + 1,
        forall|j: int|
            0 <= j <= steps ==> #[trigger] samples@[j] == bezier_point_at(points, j, steps as int),
        samples@[0] == points[0],
        samples@[steps as int] == points[3],
        forall|j: int| 0 <= j <= steps ==> (#[trigger] samples@[j]).in_range(MAX_POINT_COORD),
{
    let mut samples: Vec<Vec2> = Vec::new();
    let mut i: u64 = 0;
    while i <= steps
        invariant
            1 <= steps <= MAX_BEZIER_STEPS,
            i <= steps + 1,
            samples@.len() == i,
            forall|k: int| 0 <= k < 4 ==> (#[trigger] points[k]).in_range(MAX_POINT_COORD),
            forall|j: int|
                0 <= j < i ==> #[trigger] samples@[j] == bezier_point_at(points, j, steps as int),
            forall|j: int| 0 <= j < i ==> (#[trigger] samples@[j]).in_range(MAX_POINT_COORD),
            i >= 1 ==> samples@[0] == points[0],
            i == steps + 1 ==> samples@[steps as int] == points[3],
        decreases steps + 1 - i,
    {
        let p = bezier_point(points, i, steps);
        samples.push(p);
        i = i + 1;
    }
    samples
}

/// Four control points for a cubic Bezier between `start` and `end`: the inner
/// two sit a quarter of a unit along the line, pushed to either side of it by
/// `curviness` units. A degenerate pair (`start == end`) keeps the endpoints.
pub open spec fn control_points_at(start: Vec2, end: Vec2, curviness: int) -> (Vec2, Vec2, Vec2, Vec2) {
    let len = dist(start, end) as int;
    if len == 0 {
        (start, start, end, end)
    } else {
        let dx = end.x - start.x;
        let dy = end.y - start.y;
        (
            start,
            Vec2 {
                x: (start.x + tdiv(dx, 4 * len) - tdiv(dy * curviness, len)) as i64,
                y: (start.y + tdiv(dy, 4 * len) + tdiv(dx * curviness, len)) as i64,
            },
            Vec2 {
                x: (start.x + tdiv(3 * dx, 4 * len) + tdiv(dy * curviness, len)) as i64,
                y: (start.y + tdiv(3 * dy, 4 * len) - tdiv(dx * curviness, len)) as i64,
            },
            end,
        )
    }
}

/// Generates the four control points of a road's curve.
pub fn generate_bezier(start: Vec2, end: Vec2, curviness: i64) -> (control: [Vec2; 4])
    requires
        start.in_range(MAX_NODE_COORD),
        end.in_range(MAX_NODE_COORD),
        -MAX_CURVINESS <= curviness <= MAX_CURVINESS,
    ensures
        (control[0], control[1], control[2], control[3]) == control_points_at(
            start,
            end,
            curviness as int,
        ),
        forall|k: int| 0 <= k < 4 ==> (#[trigger] control[k]).in_range(MAX_POINT_COORD),
{
    let len: u64 = distance(start, end);
    if len == 0 {
        return [start, start, end, end];
    }
    let dx: i64 = end.x - start.x;
    let dy: i64 = end.y - start.y;

    proof {
        lemma_component_le_dist(start, end);
        assert(-(len as int) * (4 * len as int) <= dx <= (len as int) * (4 * len as int)
            && -(len as int) * (4 * len as int) <= dy <= (len as int) * (4 * len as int))
            by (nonlinear_arith)
            requires
                1 <= len,
                -(len as int) <= dx <= len as int,
                -(len as int) <= dy <= len as int,
        ;
        lemma_tdiv_bound(dx as int, 4 * len as int, len as int);
        lemma_tdiv_bound(dy as int, 4 * len as int, len as int);
        assert(-1 * (4 * len as int) <= dx <= 1 * (4 * len as int) && -1 * (4 * len as int) <= dy
            <= 1 * (4 * len as int) && -1 * (4 * len as int) <= 3 * dx <= 1 * (4 * len as int) && -1
            * (4 * len as int) <= 3 * dy <= 1 * (4 * len as int)) by (nonlinear_arith)
            requires
                1 <= len,
                -(len as int) <= dx <= len as int,
                -(len as int) <= dy <= len as int,
        ;
        lemma_tdiv_bound(dx as int, 4 * len as int, 1);
        lemma_tdiv_bound(dy as int, 4 * len as int, 1);
        lemma_tdiv_bound(3 * dx as int, 4 * len as int, 1);
        lemma_tdiv_bound(3 * dy as int, 4 * len as int, 1);
        assert(-MAX_CURVINESS * (len as int) <= dx * curviness <= MAX_CURVINESS * (len as int)
            && -MAX_CURVINESS * (len as int) <= dy * curviness <= MAX_CURVINESS * (len as int))
            by (nonlinear_arith)
            requires
                1 <= len,
                -(len as int) <= dx <= len as int,
                -(len as int) <= dy <= len as int,
                -MAX_CURVINESS <= curviness <= MAX_CURVINESS,
        ;
        lemma_tdiv_bound(dx as int * curviness as int, len as int, MAX_CURVINESS as int);
        lemma_tdiv_bound(dy as int * curviness as int, len as int, MAX_CURVINESS as int);
        assert(MAX_CURVINESS * (len as int) <= 3_000_000_000_000 && -(
        3_000_000_000_000int) <= (-MAX_CURVINESS) * (len as int)) by (nonlinear_arith)
            requires
                1 <= len <= 6_000_000,
                MAX_CURVINESS == 500_000,
        ;
    }

    let q1x = div_trunc(dx, 4 * len);
    let q1y = div_trunc(dy, 4 * len);
    let q3x = div_trunc(3 * dx, 4 * len);
    let q3y = div_trunc(3 * dy, 4 * len);
    let nx = div_trunc(dy * curviness, len);
    let ny = div_trunc(dx * curviness, len);

    let control1 = Vec2 { x: start.x + q1x - nx, y: start.y + q1y + ny };
    let control2 = Vec2 { x: start.x + q3x + nx, y: start.y + q3y - ny };

    [start, control1, control2, end]
}

/// The polyline point `j` of a road curved with `curviness` and sampled at
/// `steps + 1` parameters.
pub open spec fn curve_sample(start: Vec2, end: Vec2, curviness: int, j: int, steps: int) -> Vec2 {
    let cps = control_points_at(start, end, curviness);
    Vec2 {
        x: bezier_coord(
            cps.0.x as int,
            cps.1.x as int,
            cps.2.x as int,
            cps.3.x as int,
            j,
            steps,
        ) as i64,
        y: bezier_coord(
            cps.0.y as int,
            cps.1.y as int,
            cps.2.y as int,
            cps.3.y as int,
            j,
            steps,
        ) as i64,
    }
}

impl Road {
    /// What every constructor guarantees of a freshly built, empty road whose
    /// polyline is `points`.
    pub open spec fn fresh(
        self,
        id: RoadID,
        from: Node,
        to: Node,
        capacity: i32,
        speed_limit: u32,
        points: Seq<Vec2>,
    ) -> bool {
        &&& self.id == id
        &&& self.from == from
        &&& self.to == to
        &&& self.length == dist(from.position, to.position)
        &&& self.capacity == capacity
        &&& self.vehicles_on@ == Seq::<CarID>::empty()
        &&& self.num_vehicles_on == 0
        &&& self.speed_limit == speed_limit
        &&& self.traffic_density == 0
        &&& self.points@ == points
    }

    /// Builds an empty road over an explicit polyline, with an explicit
    /// one-way flag.
    pub fn new_road_with_points(
        id: RoadID,
        from: Node,
        to: Node,
        capacity: i32,
        speed_limit: u32,
        one_way: bool,
        points: Vec<Vec2>,
    ) -> (road: Road)
        requires
            from.wf(),
            to.wf(),
            capacity >= 1,
            points@.len() >= 2,
            points@[0] == from.position,
            points@[points@.len() - 1] == to.position,
            forall|k: int| 0 <= k < points@.len() ==> (#[trigger] points@[k]).in_range(
                MAX_POINT_COORD,
            ),
        ensures
            road.wf(),
            road.fresh(id, from, to, capacity, speed_limit, points@),
            road.one_way == one_way,
    {
        let length = distance(from.position, to.position);
        proof {
            assert(Road::density_of(0, capacity as int) == 0) by (nonlinear_arith)
                requires
                    capacity >= 1,
            ;
        }
        Road {
            id,
            from,
            to,
            length,
            capacity,
            vehicles_on: Vec::new(),
            num_vehicles_on: 0,
            speed_limit,
            one_way,
            traffic_density: 0,
            points,
        }
    }

    /// Builds an empty road with a mild standard curve, one-way at random
    /// (about a fifth of roads come out one-way).
    pub fn new_road(id: RoadID, from: Node, to: Node, capacity: i32, speed_limit: u32) -> (road:
        Road)
        requires
            from.wf(),
            to.wf(),
            capacity >= 1,
        ensures
            road.wf(),
            road.fresh(id, from, to, capacity, speed_limit, road.points@),
            road.points@.len() == 31,
            forall|j: int|
                0 <= j <= 30 ==> #[trigger] road.points@[j] == curve_sample(
                    from.position,
                    to.position,
                    10,
                    j,
                    30,
                ),
    {
        let one_way = random_in_range(1, 1001) < 200;
        let control = generate_bezier(from.position, to.position, 10);
        let points = sample_bezier(control, 30);
        proof {
            assert forall|j: int| 0 <= j <= 30 implies #[trigger] points@[j] == curve_sample(
                from.position,
                to.position,
                10,
                j,
                30,
            ) by {
                assert(points@[j] == bezier_point_at(control, j, 30));
            }
        }
        Road::new_road_with_points(id, from, to, capacity, speed_limit, one_way, points)
    }

    /// Builds an empty road curved by `curviness`, one-way at random.
    pub fn new_road_with_curves(
        id: RoadID,
        from: Node,
        to: Node,
        capacity: i32,
        speed_limit: u32,
        curviness: i64,
    ) -> (road: Road)
        requires
            from.wf(),
            to.wf(),
            capacity >= 1,
            -MAX_CURVINESS <= curviness <= MAX_CURVINESS,
        ensures
            road.wf(),
            road.fresh(id, from, to, capacity, speed_limit, road.points@),
            road.points@.len() == 51,
            forall|j: int|
                0 <= j <= 50 ==> #[trigger] road.points@[j] == curve_sample(
                    from.position,
                    to.position,
                    curviness as int,
                    j,
                    50,
                ),
    {
        let one_way = random_in_range(1, 1001) < 200;
        let control = generate_bezier(from.position, to.position, curviness);
        let points = sample_bezier(control, 50);
        proof {
            assert forall|j: int| 0 <= j <= 50 implies #[trigger] points@[j] == curve_sample(
                from.position,
                to.position,
                curviness as int,
                j,
                50,
            ) by {
                assert(points@[j] == bezier_point_at(control, j, 50));
            }
        }
        Road::new_road_with_points(id, from, to, capacity, speed_limit, one_way, points)
    }
}

/// How a graph operation can fail.
#[derive(Clone, Copy, PartialEq, Eq, Structural, Debug)]
pub enum GraphError {
    /// The id does not resolve to a stored road, node or car.
    NotFound,
    /// A road already registers as many cars as the occupancy counter can
    /// keep exact.
    Full,
}

/// The authoritative owner of all nodes, roads and cars, with an adjacency
/// index `node -> [(neighbor node, connecting road)]` that is kept in step
/// with the stored roads on every structural edit.
#[derive(Debug)]
pub struct RoadGraph {
    pub roads: HashMap<i32, Road>,
    pub nodes: HashMap<i32, Node>,
    pub cars: HashMap<i32, Car>,
    pub adjacency: HashMap<i32, Vec<(NodeID, RoadID)>>,
}

impl RoadGraph {
    /// Entry `e`, listed under node `u`, names a stored road from `u` to `e.0`.
    pub open spec fn adj_entry_ok(self, u: i32, e: (NodeID, RoadID)) -> bool {
        &&& self.roads@.contains_key(e.1.0)
        &&& self.roads@[e.1.0].id == e.1
        &&& self.roads@[e.1.0].from.id.0 == u
        &&& self.roads@[e.1.0].to.id == e.0
    }

    /// The adjacency index lists road `r` under its `from` node.
    pub open spec fn road_listed(self, r: Road) -> bool {
        &&& self.adjacency@.contains_key(r.from.id.0)
        &&& self.adjacency@[r.from.id.0]@.contains((r.to.id, r.id))
    }

    /// The graph's invariant: roads are well formed, stored under their own
    /// id, with both endpoints present among the nodes; nodes are stored under
    /// their own id; and the adjacency index lists exactly the stored roads.
    pub open spec fn wf(self) -> bool {
        &&& forall|rid: i32| #[trigger] self.roads@.contains_key(rid) ==> {
            let r = self.roads@[rid];
            &&& r.wf()
            &&& r.id.0 == rid
            &&& self.nodes@.contains_key(r.from.id.0)
            &&& self.nodes@.contains_key(r.to.id.0)
            &&& self.road_listed(r)
        }
        &&& forall|nid: i32| #[trigger] self.nodes@.contains_key(nid) ==> self.nodes@[nid].id.0
            == nid && self.nodes@[nid].wf()
        &&& forall|u: i32, j: int|
            self.adjacency@.contains_key(u) && 0 <= j < self.adjacency@[u]@.len()
                ==> self.adj_entry_ok(u, #[trigger] self.adjacency@[u]@[j])
    }
}

/// The roads handed to the graph constructor, an absent collection reading as
/// empty.
pub open spec fn opt_road_seq(roads: Option<Vec<Road>>) -> Seq<Road> {
    match roads {
        Some(v) => v@,
        None => Seq::empty(),
    }
}

/// The nodes handed to the graph constructor, an absent collection reading as
/// empty.
pub open spec fn opt_node_seq(nodes: Option<Vec<Node>>) -> Seq<Node> {
    match nodes {
        Some(v) => v@,
        None => Seq::empty(),
    }
}

impl RoadGraph {
    /// Builds a graph from collections of roads and nodes, either optional,
    /// and computes the adjacency index by grouping roads on their `from`
    /// node. Ids must be distinct and every road's endpoints must be among
    /// the nodes.
    #[verifier::loop_isolation(false)]
    pub fn new(roads: Option<Vec<Road>>, nodes: Option<Vec<Node>>) -> (graph: RoadGraph)
        requires
            forall|i: int| 0 <= i < opt_road_seq(roads).len() ==> (#[trigger] opt_road_seq(
                roads,
            )[i]).wf(),
            forall|i: int, j: int|
                0 <= i < j < opt_road_seq(roads).len() ==> opt_road_seq(roads)[i].id
                    != opt_road_seq(roads)[j].id,
            forall|i: int| 0 <= i < opt_node_seq(nodes).len() ==> (#[trigger] opt_node_seq(
                nodes,
            )[i]).wf(),
            forall|i: int, j: int|
                0 <= i < j < opt_node_seq(nodes).len() ==> opt_node_seq(nodes)[i].id
                    != opt_node_seq(nodes)[j].id,
            forall|i: int|
                0 <= i < opt_road_seq(roads).len() ==> exists|j: int|
                    0 <= j < opt_node_seq(nodes).len() && (#[trigger] opt_node_seq(nodes)[j]).id
                        == (#[trigger] opt_road_seq(roads)[i]).from.id,
            forall|i: int|
                0 <= i < opt_road_seq(roads).len() ==> exists|j: int|
                    0 <= j < opt_node_seq(nodes).len() && (#[trigger] opt_node_seq(nodes)[j]).id
                        == (#[trigger] opt_road_seq(roads)[i]).to.id,
        ensures
            graph.wf(),
            graph.cars@ == Map::<i32, Car>::empty(),
            forall|i: int|
                0 <= i < opt_road_seq(roads).len() ==> {
                    let r = #[trigger] opt_road_seq(roads)[i];
                    graph.roads@.contains_key(r.id.0) && graph.roads@[r.id.0] == r
                },
            forall|k: i32| #[trigger] graph.roads@.contains_key(k) ==> exists|i: int|
                0 <= i < opt_road_seq(roads).len() && opt_road_seq(roads)[i].id.0 == k,
            forall|i: int|
                0 <= i < opt_node_seq(nodes).len() ==> {
                    let n = #[trigger] opt_node_seq(nodes)[i];
                    graph.nodes@.contains_key(n.id.0) && graph.nodes@[n.id.0] == n
                },
            forall|k: i32| #[trigger] graph.nodes@.contains_key(k) ==> exists|i: int|
                0 <= i < opt_node_seq(nodes).len() && opt_node_seq(nodes)[i].id.0 == k,
            forall|u: i32| #[trigger] graph.adjacency@.contains_key(u)
                ==> graph.adjacency@[u]@.len() > 0 && exists|rid: i32|
                #[trigger] graph.roads@.contains_key(rid) && graph.roads@[rid].from.id.0 == u,
    {
        let ghost rs = opt_road_seq(roads);
        let ghost ns = opt_node_seq(nodes);

        let roads_vec = match roads {
            Some(v) => v,
            None => Vec::new(),
        };
        let nodes_vec = match nodes {
            Some(v) => v,
            None => Vec::new(),
        };

        let mut node_map: HashMap<i32, Node> = HashMap::new();
        let mut i: usize = 0;
        while i < nodes_vec.len()
            invariant
                i <= nodes_vec.len(),
                nodes_vec@ == ns,
                forall|j: int|
                    0 <= j < i ==> node_map@.contains_key((#[trigger] ns[j]).id.0)
                        && node_map@[ns[j].id.0] == ns[j],
                forall|k: i32| #[trigger] node_map@.contains_key(k) ==> exists|j: int|
                    0 <= j < i && ns[j].id.0 == k,
            decreases nodes_vec.len() - i,
        {
            let n = nodes_vec[i];
            node_map.insert(n.id.0, n);
            i = i + 1;
        }

        let mut adjacency: HashMap<i32, Vec<(NodeID, RoadID)>> = HashMap::new();
        let mut i: usize = 0;
        while i < roads_vec.len()
            invariant
                i <= roads_vec.len(),
                roads_vec@ == rs,
                forall|u: i32| #[trigger] adjacency@.contains_key(u) ==> adjacency@[u]@.len()
                    > 0,
                forall|u: i32, j: int|
                    adjacency@.contains_key(u) && 0 <= j < adjacency@[u]@.len() ==> {
                        let e = #[trigger] adjacency@[u]@[j];
                        exists|w: int|
                            0 <= w < i && (#[trigger] rs[w]).id == e.1 && rs[w].from.id.0 == u
                                && rs[w].to.id == e.0
                    },
                forall|j: int|
                    0 <= j < i ==> {
                        let r = #[trigger] rs[j];
                        adjacency@.contains_key(r.from.id.0) && adjacency@[r.from.id.0]@.contains(
                            (r.to.id, r.id),
                        )
                    },
            decreases roads_vec.len() - i,
        {
            let key = roads_vec[i].from.id.0;
            let ghost prior = adjacency@;
            let mut entry: Vec<(NodeID, RoadID)> = match adjacency.remove(&key) {
                Some(v) => v,
                None => Vec::new(),
            };
            let ghost entry_before = entry@;
            entry.push((roads_vec[i].to.id, roads_vec[i].id));
            adjacency.insert(key, entry);
            proof {
                assert(adjacency@[key]@ == entry_before.push((rs[i as int].to.id, rs[i as int].id)));
                assert forall|j: int| 0 <= j < i + 1 implies {
                    let r = #[trigger] rs[j];
                    adjacency@.contains_key(r.from.id.0) && adjacency@[r.from.id.0]@.contains(
                        (r.to.id, r.id),
                    )
                } by {
                    let r = rs[j];
                    if j == i {
                        assert(adjacency@[key]@[adjacency@[key]@.len() - 1] == (r.to.id, r.id));
                    } else if r.from.id.0 == key {
                        if prior.contains_key(key) {
                            let e = (r.to.id, r.id);
                            let w = choose|w: int| 0 <= w < entry_before.len() && entry_before[w]
                                == e;
                            assert(adjacency@[key]@[w] == e);
                        }
                    }
                }
            }
            i = i + 1;
        }

        let mut road_map: HashMap<i32, Road> = HashMap::new();
        let mut rem: Vec<Road> = roads_vec;
        proof {
            assert(rem@ =~= rs.take(rem@.len() as int));
        }
        while rem.len() > 0
            invariant
                rem@.len() <= rs.len(),
                rem@ == rs.take(rem@.len() as int),
                forall|j: int|
                    rem@.len() <= j < rs.len() ==> road_map@.contains_key((#[trigger] rs[j]).id.0)
                        && road_map@[rs[j].id.0] == rs[j],
                forall|k: i32| #[trigger] road_map@.contains_key(k) ==> exists|j: int|
                    rem@.len() <= j < rs.len() && rs[j].id.0 == k,
            decreases rem.len(),
        {
            let ghost before = rem@;
            let r = match rem.pop() {
                Some(r) => r,
                None => {
                    proof {
                        assert(false);
                    }
                    unreached()
                },
            };
            proof {
                assert(r == rs[before.len() - 1]);
                assert(rem@ =~= rs.take(rem@.len() as int));
            }
            road_map.insert(r.id.0, r);
            proof {
                assert forall|j: int|
                    rem@.len() <= j < rs.len() implies road_map@.contains_key(
                    (#[trigger] rs[j]).id.0,
                ) && road_map@[rs[j].id.0] == rs[j] by {
                    if j > before.len() - 1 {
                        assert(rs[j].id != rs[before.len() - 1].id);
                    }
                }
            }
        }

        let cars: HashMap<i32, Car> = HashMap::new();

        let graph = RoadGraph { roads: road_map, nodes: node_map, cars, adjacency };
        proof {
            assert(graph.cars@ =~= Map::<i32, Car>::empty());
            assert forall|rid: i32| #[trigger] graph.roads@.contains_key(rid) implies {
                let r = graph.roads@[rid];
                &&& r.wf()
                &&& r.id.0 == rid
                &&& graph.nodes@.contains_key(r.from.id.0)
                &&& graph.nodes@.contains_key(r.to.id.0)
                &&& graph.road_listed(r)
            } by {
                let j = choose|j: int| 0 <= j < rs.len() && rs[j].id.0 == rid;
                let r = rs[j];
                assert(graph.roads@[rid] == r);
                let nf = choose|w: int| 0 <= w < ns.len() && (#[trigger] ns[w]).id == r.from.id;
                assert(node_map@.contains_key(ns[nf].id.0));
                let nt = choose|w: int| 0 <= w < ns.len() && (#[trigger] ns[w]).id == r.to.id;
                assert(node_map@.contains_key(ns[nt].id.0));
            }
            assert forall|u: i32, j: int|
                graph.adjacency@.contains_key(u) && 0 <= j < graph.adjacency@[u]@.len()
                    implies graph.adj_entry_ok(u, graph.adjacency@[u]@[j]) by {
                let e = graph.adjacency@[u]@[j];
                let w = choose|w: int|
                    0 <= w < rs.len() && (#[trigger] rs[w]).id == e.1 && rs[w].from.id.0 == u
                        && rs[w].to.id == e.0;
                assert(graph.roads@.contains_key(rs[w].id.0) && graph.roads@[rs[w].id.0] == rs[w]);
            }
            assert forall|u: i32| #[trigger] graph.adjacency@.contains_key(u)
                implies graph.adjacency@[u]@.len() > 0 && exists|rid: i32|
                #[trigger] graph.roads@.contains_key(rid) && graph.roads@[rid].from.id.0 == u by {
                let e = graph.adjacency@[u]@[0];
                assert(graph.adj_entry_ok(u, e));
                assert(graph.roads@.contains_key(e.1.0) && graph.roads@[e.1.0].from.id.0 == u);
            }
        }
        graph
    }
}

/// Relates a road after an occupancy change to the road before it: geometry
/// and identity are untouched, the occupant set becomes `occupants`, and the
/// counter and density are recomputed from it.
pub open spec fn occupancy_step(before: Road, after: Road, occupants: Seq<CarID>) -> bool {
    &&& after.id == before.id
    &&& after.from == before.from
    &&& after.to == before.to
    &&& after.length == before.length
    &&& after.capacity == before.capacity
    &&& after.speed_limit == before.speed_limit
    &&& after.one_way == before.one_way
    &&& after.points@ == before.points@
    &&& after.vehicles_on@ == occupants
    &&& after.num_vehicles_on == occupants.len()
    &&& after.traffic_density == Road::density_of(occupants.len() as int, before.capacity as int)
}

impl RoadGraph {
    pub fn get_roads(&self) -> (roads: &HashMap<i32, Road>)
        ensures
            roads@ == self.roads@,
    {
        &self.roads
    }

    pub fn get_nodes(&self) -> (nodes: &HashMap<i32, Node>)
        ensures
            nodes@ == self.nodes@,
    {
        &self.nodes
    }

    pub fn get_cars(&self) -> (cars: &HashMap<i32, Car>)
        ensures
            cars@ == self.cars@,
    {
        &self.cars
    }

    pub fn get_adjacency(&self) -> (adjacency: &HashMap<i32, Vec<(NodeID, RoadID)>>)
        ensures
            adjacency@ == self.adjacency@,
    {
        &self.adjacency
    }

    /// Resolves a road id, failing with `NotFound` exactly when it is absent.
    pub fn lookup_road(&self, id: RoadID) -> (found: Result<&Road, GraphError>)
        ensures
            match found {
                Ok(road) => self.roads@.contains_key(id.0) && *road == self.roads@[id.0],
                Err(e) => !self.roads@.contains_key(id.0) && e == GraphError::NotFound,
            },
    {
        match self.roads.get(&id.0) {
            Some(road) => Ok(road),
            None => Err(GraphError::NotFound),
        }
    }

    /// Resolves a node id, failing with `NotFound` exactly when it is absent.
    pub fn lookup_node(&self, id: NodeID) -> (found: Result<Node, GraphError>)
        ensures
            match found {
                Ok(node) => self.nodes@.contains_key(id.0) && node == self.nodes@[id.0],
                Err(e) => !self.nodes@.contains_key(id.0) && e == GraphError::NotFound,
            },
    {
        match self.nodes.get(&id.0) {
            Some(node) => Ok(*node),
            None => Err(GraphError::NotFound),
        }
    }

    /// Stores a node under its id, keeping the graph invariant.
    pub fn add_node(&mut self, node: Node)
        requires
            old(self).wf(),
            node.wf(),
        ensures
            final(self).wf(),
            final(self).nodes@ == old(self).nodes@.insert(node.id.0, node),
            final(self).roads@ == old(self).roads@,
            final(self).cars@ == old(self).cars@,
            final(self).adjacency@ == old(self).adjacency@,
    {
        self.nodes.insert(node.id.0, node);
    }

    /// Removes a node. The graph invariant survives as long as no stored road
    /// still names the node as an endpoint.
    pub fn remove_node(&mut self, id: NodeID)
        requires
            old(self).wf(),
        ensures
            final(self).nodes@ == old(self).nodes@.remove(id.0),
            final(self).roads@ == old(self).roads@,
            final(self).cars@ == old(self).cars@,
            final(self).adjacency@ == old(self).adjacency@,
            (forall|rid: i32| #[trigger] old(self).roads@.contains_key(rid) ==> old(
                self,
            ).roads@[rid].from.id != id && old(self).roads@[rid].to.id != id) ==> final(self).wf(),
    {
        self.nodes.remove(&id.0);
    }

    /// Registers a car under its id.
    pub fn add_car(&mut self, car: Car)
        requires
            old(self).wf(),
        ensures
            final(self).wf(),
            final(self).cars@ == old(self).cars@.insert(car.car_id.0, car),
            final(self).roads@ == old(self).roads@,
            final(self).nodes@ == old(self).nodes@,
            final(self).adjacency@ == old(self).adjacency@,
    {
        let key = car.car_id.0;
        self.cars.insert(key, car);
    }

    /// Removes a car from the registry.
    pub fn remove_car(&mut self, id: CarID)
        requires
            old(self).wf(),
        ensures
            final(self).wf(),
            final(self).cars@ == old(self).cars@.remove(id.0),
            final(self).roads@ == old(self).roads@,
            final(self).nodes@ == old(self).nodes@,
            final(self).adjacency@ == old(self).adjacency@,
    {
        self.cars.remove(&id.0);
    }

    /// Stores a road under its id and lists it in the adjacency index, so the
    /// index keeps reflecting the stored roads after the edit. The id must be
    /// fresh and both endpoints must already be present.
    pub fn add_road(&mut self, road: Road)
        requires
            old(self).wf(),
            road.wf(),
            !old(self).roads@.contains_key(road.id.0),
            old(self).nodes@.contains_key(road.from.id.0),
            old(self).nodes@.contains_key(road.to.id.0),
        ensures
            final(self).wf(),
            final(self).roads@ == old(self).roads@.insert(road.id.0, road),
            final(self).nodes@ == old(self).nodes@,
            final(self).cars@ == old(self).cars@,
            final(self).road_listed(road),
            forall|u: i32|
                u != road.from.id.0 ==> ((#[trigger] final(self).adjacency@.contains_key(u) <==> old(
                    self,
                ).adjacency@.contains_key(u)) && (old(self).adjacency@.contains_key(u)
                    ==> final(self).adjacency@[u] == old(self).adjacency@[u])),
            final(self).adjacency@[road.from.id.0]@ == (if old(self).adjacency@.contains_key(
                road.from.id.0,
            ) {
                old(self).adjacency@[road.from.id.0]@
            } else {
                Seq::<(NodeID, RoadID)>::empty()
            }).push((road.to.id, road.id)),
    {
        let ghost prior = self.adjacency@;
        let key = road.from.id.0;
        let mut entry: Vec<(NodeID, RoadID)> = match self.adjacency.remove(&key) {
            Some(v) => v,
            None => Vec::new(),
        };
        let ghost entry_before = entry@;
        entry.push((road.to.id, road.id));
        self.adjacency.insert(key, entry);
        self.roads.insert(road.id.0, road);
        proof {
            let new_self = *self;
            assert(new_self.adjacency@[key]@[new_self.adjacency@[key]@.len() - 1] == (
            road.to.id,
            road.id,
            ));
            assert forall|rid: i32| #[trigger] new_self.roads@.contains_key(rid) implies {
                let r = new_self.roads@[rid];
                &&& r.wf()
                &&& r.id.0 == rid
                &&& new_self.nodes@.contains_key(r.from.id.0)
                &&& new_self.nodes@.contains_key(r.to.id.0)
                &&& new_self.road_listed(r)
            } by {
                let r = new_self.roads@[rid];
                if rid != road.id.0 {
                    assert(old(self).roads@.contains_key(rid) && old(self).roads@[rid] == r);
                    if r.from.id.0 == key {
                        if prior.contains_key(key) {
                            let e = (r.to.id, r.id);
                            let w = choose|w: int|
                                0 <= w < entry_before.len() && entry_before[w] == e;
                            assert(new_self.adjacency@[key]@[w] == e);
                        }
                    }
                }
            }
            assert forall|u: i32, j: int|
                new_self.adjacency@.contains_key(u) && 0 <= j < new_self.adjacency@[u]@.len()
                    implies new_self.adj_entry_ok(u, new_self.adjacency@[u]@[j]) by {
                let e = new_self.adjacency@[u]@[j];
                if u == key && j == new_self.adjacency@[u]@.len() - 1 {
                    assert(e == (road.to.id, road.id));
                } else {
                    assert(prior.contains_key(u) && prior[u]@[j] == e);
                    assert(old(self).adj_entry_ok(u, e));
                    assert(e.1.0 != road.id.0);
                }
            }
        }
    }

    /// Unstores a road and prunes its adjacency entries, so the index keeps
    /// reflecting the stored roads after the edit. Absent ids are a no-op.
    pub fn remove_road(&mut self, id: RoadID)
        requires
            old(self).wf(),
        ensures
            final(self).wf(),
            final(self).roads@ == old(self).roads@.remove(id.0),
            final(self).nodes@ == old(self).nodes@,
            final(self).cars@ == old(self).cars@,
            !old(self).roads@.contains_key(id.0) ==> final(self).adjacency@ == old(self).adjacency@,
            old(self).roads@.contains_key(id.0) ==> {
                let key = old(self).roads@[id.0].from.id.0;
                &&& forall|u: i32|
                    u != key ==> ((#[trigger] final(self).adjacency@.contains_key(u) <==> old(
                        self,
                    ).adjacency@.contains_key(u)) && (old(self).adjacency@.contains_key(u)
                        ==> final(self).adjacency@[u] == old(self).adjacency@[u]))
                &&& final(self).adjacency@.contains_key(key)
                &&& final(self).adjacency@[key]@ == old(self).adjacency@[key]@.filter(
                    |e: (NodeID, RoadID)| e.1 != id,
                )
            },
    {
        let removed = self.roads.remove(&id.0);
        match removed {
            None => {
                proof {
                    assert(self.roads@ =~= old(self).roads@.remove(id.0));
                }
            },
            Some(road) => {
                let key = road.from.id.0;
                let entry: Vec<(NodeID, RoadID)> = match self.adjacency.remove(&key) {
                    Some(v) => v,
                    None => Vec::new(),
                };
                let ghost entry_before = entry@;
                let ghost pred = |e: (NodeID, RoadID)| e.1 != id;
                let mut kept: Vec<(NodeID, RoadID)> = Vec::new();
                let mut i: usize = 0;
                while i < entry.len()
                    invariant
                        i <= entry.len(),
                        entry@ == entry_before,
                        pred == (|e: (NodeID, RoadID)| e.1 != id),
                        kept@ == entry_before.take(i as int).filter(pred),
                    decreases entry.len() - i,
                {
                    proof {
                        reveal(Seq::filter);
                        assert(entry_before.take(i + 1).drop_last() =~= entry_before.take(i as int));
                        assert(entry_before.take(i + 1).last() == entry_before[i as int]);
                    }
                    let e = entry[i];
                    if e.1.0 != id.0 {
                        kept.push(e);
                    }
                    i = i + 1;
                }
                proof {
                    assert(entry_before.take(entry_before.len() as int) =~= entry_before);
                }
                self.adjacency.insert(key, kept);
                proof {
                    let new_self = *self;
                    assert(new_self.roads@ =~= old(self).roads@.remove(id.0));
                    assert forall|rid: i32| #[trigger] new_self.roads@.contains_key(rid) implies {
                        let r = new_self.roads@[rid];
                        &&& r.wf()
                        &&& r.id.0 == rid
                        &&& new_self.nodes@.contains_key(r.from.id.0)
                        &&& new_self.nodes@.contains_key(r.to.id.0)
                        &&& new_self.road_listed(r)
                    } by {
                        let r = new_self.roads@[rid];
                        assert(old(self).roads@.contains_key(rid) && old(self).roads@[rid] == r);
                        if r.from.id.0 == key {
                            let e = (r.to.id, r.id);
                            let w = choose|w: int|
                                0 <= w < entry_before.len() && entry_before[w] == e;
                            entry_before.lemma_filter_contains(pred, w);
                        }
                    }
                    assert forall|u: i32, j: int|
                        new_self.adjacency@.contains_key(u) && 0 <= j
                            < new_self.adjacency@[u]@.len() implies new_self.adj_entry_ok(
                        u,
                        new_self.adjacency@[u]@[j],
                    ) by {
                        let e = new_self.adjacency@[u]@[j];
                        if u == key {
                            entry_before.lemma_filter_pred(pred, j);
                            assert(entry_before.contains(e)) by {
                                let w = choose|w: int|
                                    0 <= w < entry_before.filter(pred).len()
                                        && entry_before.filter(pred)[w] == e;
                                lemma_filter_element_origin(entry_before, pred, j);
                            }
                            let w = choose|w: int|
                                0 <= w < entry_before.len() && entry_before[w] == e;
                            assert(old(self).adj_entry_ok(u, e));
                            assert(e.1 != id);
                        } else {
                            assert(old(self).adjacency@.contains_key(u) && old(
                                self,
                            ).adjacency@[u]@[j] == e);
                            assert(old(self).adj_entry_ok(u, e));
                            assert(e.1.0 != id.0);
                        }
                    }
                }
            },
        }
    }

    /// Registers a car on a road: it joins the occupant set, and the counter
    /// and `traffic_density` are recomputed, leaving every other road alone.
    pub fn enter_road(&mut self, car_id: CarID, road_id: RoadID) -> (entered: Result<
        (),
        GraphError,
    >)
        requires
            old(self).wf(),
        ensures
            final(self).wf(),
            final(self).nodes@ == old(self).nodes@,
            final(self).cars@ == old(self).cars@,
            final(self).adjacency@ == old(self).adjacency@,
            match entered {
                Ok(_) => {
                    &&& old(self).roads@.contains_key(road_id.0)
                    &&& old(self).roads@[road_id.0].vehicles_on@.len() < MAX_OCCUPANTS
                    &&& final(self).roads@.contains_key(road_id.0)
                    &&& occupancy_step(
                        old(self).roads@[road_id.0],
                        final(self).roads@[road_id.0],
                        old(self).roads@[road_id.0].vehicles_on@.push(car_id),
                    )
                    &&& final(self).roads@.remove(road_id.0) == old(self).roads@.remove(road_id.0)
                },
                Err(e) => {
                    &&& final(self).roads@ == old(self).roads@
                    &&& (e == GraphError::NotFound <==> !old(self).roads@.contains_key(road_id.0))
                    &&& (e == GraphError::Full <==> old(self).roads@.contains_key(road_id.0) && old(
                        self,
                    ).roads@[road_id.0].vehicles_on@.len() >= MAX_OCCUPANTS)
                },
            },
    {
        let road_opt = self.roads.remove(&road_id.0);
        match road_opt {
            None => {
                proof {
                    assert(self.roads@ =~= old(self).roads@);
                }
                Err(GraphError::NotFound)
            },
            Some(road) => {
                if road.vehicles_on.len() >= MAX_OCCUPANTS {
                    self.roads.insert(road_id.0, road);
                    proof {
                        assert(self.roads@ =~= old(self).roads@);
                        lemma_same_graph_wf(*old(self), *self);
                    }
                    Err(GraphError::Full)
                } else {
                    let mut road = road;
                    road.vehicles_on.push(car_id);
                    road.num_vehicles_on = road.vehicles_on.len() as i32;
                    road.traffic_density = (road.vehicles_on.len() as u64) * 1000 / (road.capacity
                        as u64);
                    self.roads.insert(road_id.0, road);
                    proof {
                        assert(self.roads@.remove(road_id.0) =~= old(self).roads@.remove(
                            road_id.0,
                        ));
                        lemma_occupancy_graph_wf(*old(self), *self, road_id);
                    }
                    Ok(())
                }
            },
        }
    }

    /// Unregisters a car from a road: every occurrence of its id leaves the
    /// occupant set, and the counter and `traffic_density` are recomputed,
    /// leaving every other road alone.
    pub fn leave_road(&mut self, car_id: CarID, road_id: RoadID) -> (left: Result<(), GraphError>)
        requires
            old(self).wf(),
        ensures
            final(self).wf(),
            final(self).nodes@ == old(self).nodes@,
            final(self).cars@ == old(self).cars@,
            final(self).adjacency@ == old(self).adjacency@,
            match left {
                Ok(_) => {
                    &&& old(self).roads@.contains_key(road_id.0)
                    &&& final(self).roads@.contains_key(road_id.0)
                    &&& occupancy_step(
                        old(self).roads@[road_id.0],
                        final(self).roads@[road_id.0],
                        old(self).roads@[road_id.0].vehicles_on@.filter(
                            |c: CarID| c != car_id,
                        ),
                    )
                    &&& final(self).roads@.remove(road_id.0) == old(self).roads@.remove(road_id.0)
                },
                Err(e) => {
                    &&& e == GraphError::NotFound
                    &&& !old(self).roads@.contains_key(road_id.0)
                    &&& final(self).roads@ == old(self).roads@
                },
            },
    {
        let road_opt = self.roads.remove(&road_id.0);
        match road_opt {
            None => {
                proof {
                    assert(self.roads@ =~= old(self).roads@);
                }
                Err(GraphError::NotFound)
            },
            Some(road) => {
                let mut road = road;
                let ghost occupants_before = road.vehicles_on@;
                let ghost pred = |c: CarID| c != car_id;
                let mut kept: Vec<CarID> = Vec::new();
                let mut i: usize = 0;
                while i < road.vehicles_on.len()
                    invariant
                        i <= road.vehicles_on.len(),
                        road.vehicles_on@ == occupants_before,
                        pred == (|c: CarID| c != car_id),
                        kept@ == occupants_before.take(i as int).filter(pred),
                        kept@.len() <= i,
                    decreases road.vehicles_on.len() - i,
                {
                    proof {
                        reveal(Seq::filter);
                        assert(occupants_before.take(i + 1).drop_last() =~= occupants_before.take(
                            i as int,
                        ));
                        assert(occupants_before.take(i + 1).last() == occupants_before[i as int]);
                        occupants_before.take(i as int).lemma_filter_len(pred);
                    }
                    let c = road.vehicles_on[i];
                    if c.0 != car_id.0 {
                        kept.push(c);
                    }
                    i = i + 1;
                }
                proof {
                    assert(occupants_before.take(occupants_before.len() as int)
                        =~= occupants_before);
                }
                road.vehicles_on = kept;
                road.num_vehicles_on = road.vehicles_on.len() as i32;
                road.traffic_density = (road.vehicles_on.len() as u64) * 1000 / (road.capacity
                    as u64);
                self.roads.insert(road_id.0, road);
                proof {
                    assert(self.roads@.remove(road_id.0) =~= old(self).roads@.remove(road_id.0));
                    lemma_occupancy_graph_wf(*old(self), *self, road_id);
                }
                Ok(())
            },
        }
    }
}

/// An element of a filtered sequence comes from the sequence it was filtered
/// out of.
proof fn lemma_filter_element_origin<A>(s: Seq<A>, pred: spec_fn(A) -> bool, j: int)
    requires
        0 <= j < s.filter(pred).len(),
    ensures
        s.contains(s.filter(pred)[j]),
    decreases s.len(),
{
    reveal(Seq::filter);
    if s.len() > 0 {
        let sub = s.drop_last().filter(pred);
        if pred(s.last()) {
            if j < sub.len() {
                lemma_filter_element_origin(s.drop_last(), pred, j);
                let w = choose|w: int|
                    0 <= w < s.drop_last().len() && s.drop_last()[w] == s.filter(pred)[j];
                assert(s[w] == s.filter(pred)[j]);
            } else {
                assert(s[s.len() - 1] == s.filter(pred)[j]);
            }
        } else {
            lemma_filter_element_origin(s.drop_last(), pred, j);
            let w = choose|w: int|
                0 <= w < s.drop_last().len() && s.drop_last()[w] == s.filter(pred)[j];
            assert(s[w] == s.filter(pred)[j]);
        }
    }
}

/// Two graphs with the same four views are interchangeable for the invariant.
proof fn lemma_same_graph_wf(a: RoadGraph, b: RoadGraph)
    requires
        a.wf(),
        b.roads@ == a.roads@,
        b.nodes@ == a.nodes@,
        b.adjacency@ == a.adjacency@,
    ensures
        b.wf(),
{
}

/// A graph stays well formed when exactly one road is replaced by a road with
/// the same identity and geometry, a consistent occupant set, and a
/// recomputed density.
proof fn lemma_occupancy_graph_wf(before: RoadGraph, after: RoadGraph, road_id: RoadID)
    requires
        before.wf(),
        after.nodes@ == before.nodes@,
        after.adjacency@ == before.adjacency@,
        before.roads@.contains_key(road_id.0),
        after.roads@.contains_key(road_id.0),
        after.roads@.remove(road_id.0) == before.roads@.remove(road_id.0),
        occupancy_step(
            before.roads@[road_id.0],
            after.roads@[road_id.0],
            after.roads@[road_id.0].vehicles_on@,
        ),
        after.roads@[road_id.0].vehicles_on@.len() <= MAX_OCCUPANTS,
    ensures
        after.wf(),
{
    assert forall|rid: i32| #[trigger] after.roads@.contains_key(rid) implies {
        let r = after.roads@[rid];
        &&& r.wf()
        &&& r.id.0 == rid
        &&& after.nodes@.contains_key(r.from.id.0)
        &&& after.nodes@.contains_key(r.to.id.0)
        &&& after.road_listed(r)
    } by {
        let r = after.roads@[rid];
        if rid == road_id.0 {
            let b = before.roads@[rid];
            assert(b.wf());
            assert(r.points@ == b.points@);
            assert(r.points.len() == b.points.len());
            assert(forall|k: int| 0 <= k < r.points.len() ==> r.points[k] == b.points[k]);
            assert(before.road_listed(b));
        } else {
            assert(after.roads@.remove(road_id.0).contains_key(rid) && after.roads@.remove(
                road_id.0,
            )[rid] == r);
            assert(before.roads@.remove(road_id.0).contains_key(rid) && before.roads@.remove(
                road_id.0,
            )[rid] == r);
            assert(before.roads@.contains_key(rid) && before.roads@[rid] == r);
            assert(before.road_listed(r));
        }
    }
    assert forall|u: i32, j: int|
        after.adjacency@.contains_key(u) && 0 <= j < after.adjacency@[u]@.len()
            implies after.adj_entry_ok(u, after.adjacency@[u]@[j]) by {
        let e = after.adjacency@[u]@[j];
        assert(before.adj_entry_ok(u, e));
        if e.1.0 != road_id.0 {
            assert(before.roads@.remove(road_id.0).contains_key(e.1.0));
        }
    }
}

/// Builds `num` random test roads over the given nodes: each road links two
/// distinct random nodes with a random capacity in `20..100` and a random
/// speed limit in `30..80`.
#[verifier::loop_isolation(false)]
pub fn generate_random_roads(num: i32, nodes: &[Node]) -> (roads: Vec<Road>)
    requires
        0 <= num,
        2 <= nodes@.len() <= 1_000_000,
        forall|i: int| 0 <= i < nodes@.len() ==> (#[trigger] nodes@[i]).wf(),
        forall|i: int, j: int| 0 <= i < j < nodes@.len() ==> nodes@[i].id != nodes@[j].id,
    ensures
        roads@.len() == num,
        forall|k: int|
            0 <= k < num ==> {
                let r = #[trigger] roads@[k];
                &&& r.wf()
                &&& r.id.0 == k
                &&& nodes@.contains(r.from)
                &&& nodes@.contains(r.to)
                &&& r.from.id != r.to.id
                &&& 20 <= r.capacity < 100
                &&& 30 <= r.speed_limit < 80
                &&& r.vehicles_on@.len() == 0
            },
{
    let mut roads: Vec<Road> = Vec::new();
    let mut i: i32 = 0;
    while i < num
        invariant
            0 <= i <= num,
            roads@.len() == i,
            forall|k: int|
                0 <= k < i ==> {
                    let r = #[trigger] roads@[k];
                    &&& r.wf()
                    &&& r.id.0 == k
                    &&& nodes@.contains(r.from)
                    &&& nodes@.contains(r.to)
                    &&& r.from.id != r.to.id
                    &&& 20 <= r.capacity < 100
                    &&& 30 <= r.speed_limit < 80
                    &&& r.vehicles_on@.len() == 0
                },
        decreases num - i,
    {
        let fi = random_in_range(0, nodes.len() as i64) as usize;
        let shifted = random_in_range(0, nodes.len() as i64 - 1) as usize;
        let ti = if shifted >= fi {
            shifted + 1
        } else {
            shifted
        };
        let from = nodes[fi];
        let to = nodes[ti];
        proof {
            if fi < ti {
                assert(nodes@[fi as int].id != nodes@[ti as int].id);
            } else {
                assert(nodes@[ti as int].id != nodes@[fi as int].id);
            }
        }
        let capacity = random_in_range(20, 100) as i32;
        let speed_limit = random_in_range(30, 80) as u32;
        let road = Road::new_road(RoadID(i), from, to, capacity, speed_limit);
        roads.push(road);
        i = i + 1;
    }
    roads
}

/// Builds `num` random test nodes with consecutive ids and positions drawn
/// uniformly from the `x_size` by `y_size` box.
#[verifier::loop_isolation(false)]
pub fn generate_random_nodes(num: i32, x_size: i64, y_size: i64) -> (nodes: Vec<Node>)
    requires
        0 <= num,
        1 <= x_size <= MAX_NODE_COORD,
        1 <= y_size <= MAX_NODE_COORD,
    ensures
        nodes@.len() == num,
        forall|k: int|
            0 <= k < num ==> {
                let n = #[trigger] nodes@[k];
                &&& n.wf()
                &&& n.id.0 == k
                &&& 0 <= n.position.x < x_size
                &&& 0 <= n.position.y < y_size
            },
{
    let mut nodes: Vec<Node> = Vec::new();
    let mut i: i32 = 0;
    while i < num
        invariant
            0 <= i <= num,
            nodes@.len() == i,
            forall|k: int|
                0 <= k < i ==> {
                    let n = #[trigger] nodes@[k];
                    &&& n.wf()
                    &&& n.id.0 == k
                    &&& 0 <= n.position.x < x_size
                    &&& 0 <= n.position.y < y_size
                },
        decreases num - i,
    {
        let x = random_in_range(0, x_size);
        let y = random_in_range(0, y_size);
        nodes.push(Node { id: NodeID(i), position: Vec2 { x, y } });
        i = i + 1;
    }
    nodes
}

/// How many times car `c` is registered in an occupant list.
pub open spec fn count_of(s: Seq<CarID>, c: CarID) -> int {
    s.filter(|x: CarID| x == c).len() as int
}

/// Registering a car adds one to its own count and nothing to any other.
pub proof fn lemma_count_push(s: Seq<CarID>, v: CarID, c: CarID)
    ensures
        count_of(s.push(v), c) == count_of(s, c) + (if v == c {
            1int
        } else {
            0int
        }),
    decreases s.len(),
{
    reveal(Seq::filter);
    let t = s.push(v);
    assert(t.drop_last() =~= s);
    assert(t.drop_last() == s);
    assert(t.last() == v);
}

/// Filtering a car out of an occupant list erases its registrations and
/// leaves every other car's count alone.
pub proof fn lemma_count_filter_out(s: Seq<CarID>, car: CarID, c: CarID)
    ensures
        count_of(s.filter(|x: CarID| x != car), c) == (if c == car {
            0int
        } else {
            count_of(s, c)
        }),
    decreases s.len(),
{
    reveal(Seq::filter);
    if s.len() == 0 {
    } else {
        let d = s.drop_last();
        let last = s.last();
        lemma_count_filter_out(d, car, c);
        assert(d.push(last) =~= s);
        assert(d.push(last) == s);
        lemma_count_push(d, last, c);
        assert(count_of(s, c) == count_of(d, c) + (if last == c {
            1int
        } else {
            0int
        }));
        if last != car {
            assert(s.filter(|x: CarID| x != car) == d.filter(|x: CarID| x != car).push(last));
            lemma_count_push(d.filter(|x: CarID| x != car), last, c);
        } else {
            assert(s.filter(|x: CarID| x != car) == d.filter(|x: CarID| x != car));
        }
    }
}

/// A road hand-off is atomic for occupancy: leaving erases every registration
/// the car had on the old road, entering adds exactly one on the new road,
/// and no other car's registrations on either road change.
pub proof fn lemma_handoff_atomicity(
    old_road: Seq<CarID>,
    new_road: Seq<CarID>,
    car: CarID,
    other: CarID,
)
    requires
        other != car,
    ensures
        count_of(old_road.filter(|x: CarID| x != car), car) == 0,
        count_of(old_road.filter(|x: CarID| x != car), other) == count_of(old_road, other),
        count_of(new_road.push(car), car) == count_of(new_road, car) + 1,
        count_of(new_road.push(car), other) == count_of(new_road, other),
{
    lemma_count_filter_out(old_road, car, car);
    lemma_count_filter_out(old_road, car, other);
    lemma_count_push(new_road, car, car);
    lemma_count_push(new_road, car, other);
}

} // verus!
