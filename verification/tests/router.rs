use cars_and_roads::a_star;
use cars_and_roads::CarID;
use cars_and_roads::Node;
use cars_and_roads::NodeID;
use cars_and_roads::Road;
use cars_and_roads::RoadGraph;
use cars_and_roads::RoadID;
use cars_and_roads::Vec2;

fn node(id: i32, x: i64, y: i64) -> Node {
    Node::new_node(NodeID(id), Vec2::new(x, y))
}

fn straight_road(id: i32, from: Node, to: Node, capacity: i32, one_way: bool) -> Road {
    Road::new_road_with_points(
        RoadID(id),
        from,
        to,
        capacity,
        60,
        one_way,
        vec![from.position, to.position],
    )
}

fn path_weight(graph: &RoadGraph, path: &[RoadID]) -> u64 {
    let mut total: u64 = 0;
    for rid in path {
        let road = graph.lookup_road(*rid).unwrap();
        let base = if road.length < 1 { 1 } else { road.length };
        total += base * (1000 + 3 * road.traffic_density);
    }
    total
}

/// All-pairs shortest path lengths by Floyd-Warshall over the same weights
/// the router uses, as an independent reference.
fn floyd_warshall(graph: &RoadGraph, ids: &[i32]) -> Vec<Vec<u64>> {
    const INF: u64 = u64::MAX / 4;
    let n = ids.len();
    let mut d = vec![vec![INF; n]; n];
    for i in 0..n {
        d[i][i] = 0;
    }
    for (_, road) in graph.get_roads() {
        let fi = ids.iter().position(|&x| x == road.from.id.0).unwrap();
        let ti = ids.iter().position(|&x| x == road.to.id.0).unwrap();
        let base = if road.length < 1 { 1 } else { road.length };
        let w = base * (1000 + 3 * road.traffic_density);
        if w < d[fi][ti] {
            d[fi][ti] = w;
        }
    }
    for k in 0..n {
        for i in 0..n {
            for j in 0..n {
                if d[i][k] < INF && d[k][j] < INF && d[i][k] + d[k][j] < d[i][j] {
                    d[i][j] = d[i][k] + d[k][j];
                }
            }
        }
    }
    d
}

fn grid_graph() -> (RoadGraph, Vec<i32>) {
    // every pairwise distance in this rectangle is an exact integer, so the
    // router's rounded-down straight-line heuristic is the true one
    let n1 = node(1, 0, 0);
    let n2 = node(2, 100, 0);
    let n3 = node(3, 0, 240);
    let n4 = node(4, 100, 240);
    let n6 = node(6, 5000, 5000);
    let links = [(n1, n2), (n1, n3), (n2, n4), (n3, n4), (n1, n4), (n2, n3)];
    let mut roads = Vec::new();
    for (k, (a, b)) in links.iter().enumerate() {
        roads.push(straight_road(2 * k as i32, *a, *b, 50, false));
        roads.push(straight_road(2 * k as i32 + 1, *b, *a, 50, false));
    }
    let graph = RoadGraph::new(Some(roads), Some(vec![n1, n2, n3, n4, n6]));
    (graph, vec![1, 2, 3, 4, 6])
}

#[test]
fn a_star_matches_reference_shortest_paths() {
    const INF: u64 = u64::MAX / 4;
    let (graph, ids) = grid_graph();
    let reference = floyd_warshall(&graph, &ids);
    for (i, &u) in ids.iter().enumerate() {
        for (j, &v) in ids.iter().enumerate() {
            if u == v {
                continue;
            }
            let path = a_star(NodeID(u), NodeID(v), &graph, false);
            if reference[i][j] < INF {
                assert!(!path.is_empty(), "expected a route from {u} to {v}");
                assert_eq!(path_weight(&graph, &path), reference[i][j]);
                let first = graph.lookup_road(path[0]).unwrap();
                assert_eq!(first.from.id, NodeID(u));
                let last = graph.lookup_road(*path.last().unwrap()).unwrap();
                assert_eq!(last.to.id, NodeID(v));
                for w in path.windows(2) {
                    let a = graph.lookup_road(w[0]).unwrap();
                    let b = graph.lookup_road(w[1]).unwrap();
                    assert_eq!(a.to.id, b.from.id);
                }
            } else {
                assert!(path.is_empty(), "no route should exist from {u} to {v}");
            }
        }
    }
}

#[test]
fn a_star_same_start_and_goal_is_empty() {
    let (graph, _) = grid_graph();
    assert!(a_star(NodeID(2), NodeID(2), &graph, false).is_empty());
}

#[test]
fn one_way_respect() {
    let u = node(1, 0, 0);
    let v = node(2, 100, 0);
    let road = straight_road(7, u, v, 10, true);
    let graph = RoadGraph::new(Some(vec![road]), Some(vec![u, v]));
    let forward = a_star(NodeID(1), NodeID(2), &graph, false);
    assert_eq!(forward, vec![RoadID(7)]);
    let backward = a_star(NodeID(2), NodeID(1), &graph, false);
    assert!(backward.is_empty());
}

#[test]
fn congestion_sensitivity() {
    let a = node(1, 0, 0);
    let b = node(2, 100, 0);
    let c = node(3, 0, 100);
    let direct = straight_road(0, a, b, 10, false);
    let leg1 = straight_road(1, a, c, 10, false);
    let leg2 = straight_road(2, c, b, 10, false);
    let mut graph = RoadGraph::new(Some(vec![direct, leg1, leg2]), Some(vec![a, b, c]));

    let quiet = a_star(NodeID(1), NodeID(2), &graph, false);
    assert_eq!(quiet, vec![RoadID(0)]);

    // five occupants on a capacity-ten road push its weight from 100,000 to
    // 250,000, past the 241,000 of the detour via node 3
    for i in 0..5 {
        graph.enter_road(CarID(100 + i), RoadID(0)).unwrap();
    }
    let congested = a_star(NodeID(1), NodeID(2), &graph, false);
    assert_eq!(congested, vec![RoadID(1), RoadID(2)]);
}
