use cars_and_roads::mix_colors;
use cars_and_roads::road::bezier_point;
use cars_and_roads::road::generate_bezier;
use cars_and_roads::road::sample_bezier;
use cars_and_roads::road::MAX_OCCUPANTS;
use cars_and_roads::geom::distance;
use cars_and_roads::Car;
use cars_and_roads::CarID;
use cars_and_roads::GraphError;
use cars_and_roads::Node;
use cars_and_roads::NodeID;
use cars_and_roads::Road;
use cars_and_roads::RoadGraph;
use cars_and_roads::RoadID;
use cars_and_roads::Vec2;

fn node(id: i32, x: i64, y: i64) -> Node {
    Node::new_node(NodeID(id), Vec2::new(x, y))
}

fn straight_road(id: i32, from: Node, to: Node, capacity: i32) -> Road {
    Road::new_road_with_points(
        RoadID(id),
        from,
        to,
        capacity,
        60,
        false,
        vec![from.position, to.position],
    )
}

#[test]
fn distance_is_rounded_euclidean() {
    assert_eq!(distance(Vec2::new(0, 0), Vec2::new(3, 4)), 5);
    assert_eq!(distance(Vec2::new(0, 0), Vec2::new(10, 0)), 10);
    assert_eq!(distance(Vec2::new(0, 0), Vec2::new(1, 1)), 1);
    assert_eq!(distance(Vec2::new(-3, 0), Vec2::new(0, -4)), 5);
    assert_eq!(distance(Vec2::new(2, 2), Vec2::new(2, 2)), 0);
}

#[test]
fn mix_colors_averages_channelwise() {
    assert_eq!(mix_colors(vec![]), None);
    assert_eq!(mix_colors(vec![(10, 20, 30, 40)]), Some((10, 20, 30, 40)));
    assert_eq!(
        mix_colors(vec![(0, 0, 0, 0), (255, 255, 255, 255)]),
        Some((127, 127, 127, 127))
    );
    assert_eq!(
        mix_colors(vec![(10, 0, 0, 255), (20, 3, 0, 255), (30, 3, 1, 255)]),
        Some((20, 2, 0, 255))
    );
}

#[test]
fn bezier_controls_bend_sideways() {
    let control = generate_bezier(Vec2::new(0, 0), Vec2::new(100, 0), 10);
    assert_eq!(control[0], Vec2::new(0, 0));
    assert_eq!(control[1], Vec2::new(0, 10));
    assert_eq!(control[2], Vec2::new(0, -10));
    assert_eq!(control[3], Vec2::new(100, 0));
}

#[test]
fn bezier_point_is_exact_integer_arithmetic() {
    let control = [Vec2::new(0, 0), Vec2::new(0, 0), Vec2::new(0, 0), Vec2::new(8, 8)];
    assert_eq!(bezier_point(control, 0, 2), Vec2::new(0, 0));
    assert_eq!(bezier_point(control, 1, 2), Vec2::new(1, 1));
    assert_eq!(bezier_point(control, 2, 2), Vec2::new(8, 8));
}

#[test]
fn sample_bezier_keeps_endpoints() {
    let control = generate_bezier(Vec2::new(0, 0), Vec2::new(100, 50), 7);
    let samples = sample_bezier(control, 30);
    assert_eq!(samples.len(), 31);
    assert_eq!(samples[0], Vec2::new(0, 0));
    assert_eq!(samples[30], Vec2::new(100, 50));
}

#[test]
fn new_road_computes_length_and_polyline() {
    let a = node(1, 0, 0);
    let b = node(2, 300, 400);
    let road = Road::new_road(RoadID(3), a, b, 40, 60);
    assert_eq!(road.length, 500);
    assert_eq!(road.capacity, 40);
    assert_eq!(road.traffic_density, 0);
    assert_eq!(road.num_vehicles_on, 0);
    assert!(road.vehicles_on.is_empty());
    assert_eq!(road.points.len(), 31);
    assert_eq!(road.points[0], a.position);
    assert_eq!(road.points[30], b.position);

    let curved = Road::new_road_with_curves(RoadID(4), a, b, 40, 60, 5);
    assert_eq!(curved.points.len(), 51);
    assert_eq!(curved.points[0], a.position);
    assert_eq!(curved.points[50], b.position);
}

#[test]
fn graph_builds_adjacency_from_roads() {
    let a = node(1, 0, 0);
    let b = node(2, 100, 0);
    let c = node(3, 200, 0);
    let r1 = straight_road(10, a, b, 5);
    let r2 = straight_road(11, b, c, 5);
    let r3 = straight_road(12, a, c, 5);
    let graph = RoadGraph::new(Some(vec![r1, r2, r3]), Some(vec![a, b, c]));

    let adjacency = graph.get_adjacency();
    let from_a = &adjacency[&1];
    assert_eq!(from_a.len(), 2);
    assert!(from_a.contains(&(NodeID(2), RoadID(10))));
    assert!(from_a.contains(&(NodeID(3), RoadID(12))));
    let from_b = &adjacency[&2];
    assert_eq!(from_b, &vec![(NodeID(3), RoadID(11))]);
    assert!(!adjacency.contains_key(&3));
}

#[test]
fn graph_edits_keep_adjacency_in_step() {
    let a = node(1, 0, 0);
    let b = node(2, 100, 0);
    let r1 = straight_road(10, a, b, 5);
    let mut graph = RoadGraph::new(Some(vec![r1]), Some(vec![a, b]));

    let c = node(3, 200, 0);
    graph.add_node(c);
    let r2 = straight_road(11, b, c, 5);
    graph.add_road(r2);
    assert_eq!(graph.get_adjacency()[&2], vec![(NodeID(3), RoadID(11))]);

    graph.remove_road(RoadID(11));
    assert!(graph.lookup_road(RoadID(11)).is_err());
    assert!(graph.get_adjacency()[&2].is_empty());

    graph.remove_node(NodeID(3));
    assert!(graph.lookup_node(NodeID(3)).is_err());
}

#[test]
fn lookups_fail_with_not_found() {
    let graph = RoadGraph::new(None, None);
    assert_eq!(graph.lookup_road(RoadID(1)).err(), Some(GraphError::NotFound));
    assert_eq!(graph.lookup_node(NodeID(1)).err(), Some(GraphError::NotFound));
    let mut graph = graph;
    assert_eq!(graph.enter_road(CarID(1), RoadID(1)), Err(GraphError::NotFound));
    assert_eq!(graph.leave_road(CarID(1), RoadID(1)), Err(GraphError::NotFound));
}

#[test]
fn occupancy_updates_density() {
    let a = node(1, 0, 0);
    let b = node(2, 100, 0);
    let r1 = straight_road(10, a, b, 10);
    let mut graph = RoadGraph::new(Some(vec![r1]), Some(vec![a, b]));

    graph.enter_road(CarID(1), RoadID(10)).unwrap();
    graph.enter_road(CarID(2), RoadID(10)).unwrap();
    {
        let road = graph.lookup_road(RoadID(10)).unwrap();
        assert_eq!(road.vehicles_on, vec![CarID(1), CarID(2)]);
        assert_eq!(road.num_vehicles_on, 2);
        assert_eq!(road.traffic_density, 200);
    }
    graph.leave_road(CarID(1), RoadID(10)).unwrap();
    {
        let road = graph.lookup_road(RoadID(10)).unwrap();
        assert_eq!(road.vehicles_on, vec![CarID(2)]);
        assert_eq!(road.num_vehicles_on, 1);
        assert_eq!(road.traffic_density, 100);
    }
    // leaving again is harmless: the car is simply no longer there
    graph.leave_road(CarID(1), RoadID(10)).unwrap();
    assert_eq!(graph.lookup_road(RoadID(10)).unwrap().num_vehicles_on, 1);
}

#[test]
fn a_full_road_refuses_another_occupant() {
    let a = node(1, 0, 0);
    let b = node(2, 100, 0);
    let r1 = straight_road(10, a, b, 1);
    let mut graph = RoadGraph::new(Some(vec![r1]), Some(vec![a, b]));
    for _ in 0..MAX_OCCUPANTS {
        graph.enter_road(CarID(7), RoadID(10)).unwrap();
    }
    assert_eq!(graph.enter_road(CarID(7), RoadID(10)), Err(GraphError::Full));
}

#[test]
fn id_conversions() {
    assert_eq!(CarID::from(5), CarID(5));
    assert_eq!(NodeID::from(-3), NodeID(-3));
    assert_eq!(i32::from(NodeID(9)), 9);
    let fallback = Node::default();
    assert_eq!(fallback.id, NodeID(0));
    assert_eq!(fallback.position, Vec2::new(0, 0));
}

#[test]
fn car_getters_report_display_attributes() {
    let a = node(1, 0, 0);
    let b = node(2, 100, 0);
    let r1 = straight_road(10, a, b, 10);
    let mut graph = RoadGraph::new(Some(vec![r1]), Some(vec![a, b]));
    let car = Car::new_on_road_with_offset(
        CarID(42),
        RoadID(10),
        &mut graph,
        5,
        NodeID(2),
        3,
        (1, 2, 3, 4),
    );
    assert_eq!(car.get_id(), CarID(42));
    assert_eq!(car.get_color(), (1, 2, 3, 4));
    assert_eq!(car.get_width(), 5);
    assert_eq!(car.get_height(), 15);
    assert_eq!(car.get_center(), Vec2::new(2, 7));
    assert_eq!(car.get_direction(), Vec2::new(100, 0));
    assert!(car.get_path().is_empty());
    assert_eq!(car.position, Vec2::new(3, 0));
}

#[test]
fn car_registry_tracks_additions_and_removals() {
    let a = node(1, 0, 0);
    let b = node(2, 100, 0);
    let r1 = straight_road(10, a, b, 10);
    let mut graph = RoadGraph::new(Some(vec![r1]), Some(vec![a, b]));
    let car = Car::new_on_road(Some(CarID(3)), RoadID(10), &mut graph, 4, NodeID(2));
    graph.add_car(car);
    assert!(graph.get_cars().contains_key(&3));
    graph.remove_car(CarID(3));
    assert!(graph.get_cars().is_empty());
}

#[test]
fn random_scenery_builds_a_sound_graph() {
    let nodes = cars_and_roads::generate_random_nodes(10, 1000, 800);
    assert_eq!(nodes.len(), 10);
    for (k, n) in nodes.iter().enumerate() {
        assert_eq!(n.id, NodeID(k as i32));
        assert!(0 <= n.position.x && n.position.x < 1000);
        assert!(0 <= n.position.y && n.position.y < 800);
    }
    let roads = cars_and_roads::generate_random_roads(15, &nodes);
    assert_eq!(roads.len(), 15);
    for (k, r) in roads.iter().enumerate() {
        assert_eq!(r.id, RoadID(k as i32));
        assert_ne!(r.from.id, r.to.id);
        assert!(20 <= r.capacity && r.capacity < 100);
        assert!(30 <= r.speed_limit && r.speed_limit < 80);
        assert_eq!(r.points[0], r.from.position);
        assert_eq!(*r.points.last().unwrap(), r.to.position);
    }
    let graph = RoadGraph::new(Some(roads), Some(nodes));
    let path = cars_and_roads::a_star(NodeID(0), NodeID(5), &graph, false);
    if !path.is_empty() {
        assert_eq!(graph.lookup_road(path[0]).unwrap().from.id, NodeID(0));
        assert_eq!(graph.lookup_road(*path.last().unwrap()).unwrap().to.id, NodeID(5));
        for w in path.windows(2) {
            let a = graph.lookup_road(w[0]).unwrap();
            let b = graph.lookup_road(w[1]).unwrap();
            assert_eq!(a.to.id, b.from.id);
        }
    }
}

#[test]
fn extreme_coordinates_stay_exact() {
    // the farthest apart two nodes can be
    let a = node(1, -1_000_000, -1_000_000);
    let b = node(2, 1_000_000, 1_000_000);
    assert_eq!(distance(a.position, b.position), 2_828_427);
    let road = straight_road(1, a, b, 10);
    assert_eq!(road.length, 2_828_427);
    let graph = RoadGraph::new(Some(vec![road]), Some(vec![a, b]));
    let path = cars_and_roads::a_star(NodeID(1), NodeID(2), &graph, false);
    assert_eq!(path, vec![RoadID(1)]);
}
