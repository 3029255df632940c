use cars_and_roads::Car;
use cars_and_roads::CarID;
use cars_and_roads::Node;
use cars_and_roads::NodeID;
use cars_and_roads::Road;
use cars_and_roads::RoadGraph;
use cars_and_roads::RoadID;
use cars_and_roads::Vec2;

fn node(id: i32, x: i64, y: i64) -> Node {
    Node::new_node(NodeID(id), Vec2::new(x, y))
}

fn road_with_points(id: i32, from: Node, to: Node, points: Vec<Vec2>) -> Road {
    Road::new_road_with_points(RoadID(id), from, to, 10, 60, false, points)
}

const GRAY: (u8, u8, u8, u8) = (128, 128, 128, 255);

#[test]
fn mover_segment_traversal() {
    let a = node(1, 0, 0);
    let b = node(2, 10, 10);
    let bend = road_with_points(
        0,
        a,
        b,
        vec![Vec2::new(0, 0), Vec2::new(10, 0), Vec2::new(10, 10)],
    );
    let mut graph = RoadGraph::new(Some(vec![bend]), Some(vec![a, b]));
    let mut car = Car::new_on_road_with_offset(CarID(9), RoadID(0), &mut graph, 5, NodeID(2), 0, GRAY);
    assert_eq!(car.position, Vec2::new(0, 0));

    let done = car.move_car_on_road(1, &graph);
    assert_eq!(car.position, Vec2::new(5, 0));
    assert_eq!(car.segment_index, 0);
    assert!(!done);

    let done = car.move_car_on_road(1, &graph);
    assert_eq!(car.position, Vec2::new(10, 0));
    assert_eq!(car.segment_index, 1);
    assert!(!done);

    let done = car.move_car_on_road(1, &graph);
    assert_eq!(car.position, Vec2::new(10, 5));
    assert_eq!(car.segment_index, 1);
    assert!(!done);

    let done = car.move_car_on_road(1, &graph);
    assert_eq!(car.position, Vec2::new(10, 10));
    assert_eq!(car.segment_index, 2);
    assert!(done);
}

#[test]
fn short_road_is_complete_immediately() {
    let a = node(1, 0, 0);
    let b = node(2, 10, 10);
    let bend = road_with_points(
        0,
        a,
        b,
        vec![Vec2::new(0, 0), Vec2::new(10, 0), Vec2::new(10, 10)],
    );
    let mut graph = RoadGraph::new(Some(vec![bend]), Some(vec![a, b]));
    let mut car = Car::new_on_road_with_offset(CarID(8), RoadID(0), &mut graph, 5, NodeID(2), 0, GRAY);
    // a polyline that cannot form a segment counts as done at once
    let stub = Road {
        points: vec![Vec2::new(0, 0)],
        ..graph.lookup_road(RoadID(0)).unwrap().clone()
    };
    graph.roads.insert(0, stub);
    assert!(car.move_car_on_road(1, &graph));
    assert_eq!(car.position, Vec2::new(0, 0));
}

#[test]
fn road_transition_atomicity() {
    let a = node(1, 0, 0);
    let b = node(2, 10, 0);
    let c = node(3, 20, 0);
    let r1 = road_with_points(1, a, b, vec![Vec2::new(0, 0), Vec2::new(10, 0)]);
    let r2 = road_with_points(2, b, c, vec![Vec2::new(10, 0), Vec2::new(20, 0)]);
    let mut graph = RoadGraph::new(Some(vec![r1, r2]), Some(vec![a, b, c]));
    let mut car = Car::new_on_road_with_offset(CarID(5), RoadID(1), &mut graph, 5, NodeID(3), 0, GRAY);

    assert_eq!(graph.lookup_road(RoadID(1)).unwrap().vehicles_on, vec![CarID(5)]);
    assert_eq!(graph.lookup_road(RoadID(1)).unwrap().traffic_density, 100);

    car.move_car_to_destination(&mut graph, 1, false); // (5,0)
    assert_eq!(car.current_road, RoadID(1));
    car.move_car_to_destination(&mut graph, 1, false); // finishes road 1, routes, transitions
    assert_eq!(car.current_road, RoadID(2));
    assert_eq!(car.segment_index, 0);
    assert_eq!(car.position, Vec2::new(10, 0));

    let old_road = graph.lookup_road(RoadID(1)).unwrap();
    assert!(old_road.vehicles_on.is_empty());
    assert_eq!(old_road.num_vehicles_on, 0);
    assert_eq!(old_road.traffic_density, 0);
    let new_road = graph.lookup_road(RoadID(2)).unwrap();
    assert_eq!(new_road.vehicles_on, vec![CarID(5)]);
    assert_eq!(new_road.num_vehicles_on, 1);
    assert_eq!(new_road.traffic_density, 100);
}

#[test]
fn many_cars_keep_occupancy_consistent() {
    let a = node(1, 0, 0);
    let b = node(2, 10, 0);
    let c = node(3, 20, 0);
    let d = node(4, 30, 0);
    let r1 = road_with_points(1, a, b, vec![Vec2::new(0, 0), Vec2::new(10, 0)]);
    let r2 = road_with_points(2, b, c, vec![Vec2::new(10, 0), Vec2::new(20, 0)]);
    let r3 = road_with_points(3, c, d, vec![Vec2::new(20, 0), Vec2::new(30, 0)]);
    let mut graph = RoadGraph::new(Some(vec![r1, r2, r3]), Some(vec![a, b, c, d]));

    let mut cars = Vec::new();
    for i in 0..6 {
        let velocity = 2 + (i as u32 % 3);
        cars.push(Car::new_on_road_with_offset(
            CarID(10 + i),
            RoadID(1),
            &mut graph,
            velocity,
            NodeID(4),
            0,
            GRAY,
        ));
    }

    for _tick in 0..40 {
        for car in cars.iter_mut() {
            car.move_car_to_destination(&mut graph, 1, false);
        }
        // no occupant is ever lost or duplicated, and the counters and
        // densities always agree with the actual memberships
        let mut total = 0;
        for (_, road) in graph.get_roads() {
            assert_eq!(road.num_vehicles_on as usize, road.vehicles_on.len());
            assert_eq!(
                road.traffic_density,
                road.vehicles_on.len() as u64 * 1000 / road.capacity as u64
            );
            total += road.vehicles_on.len();
        }
        assert_eq!(total, cars.len());
        for car in cars.iter() {
            let here = graph.lookup_road(car.current_road).unwrap();
            let on_here = here.vehicles_on.iter().filter(|&&c| c == car.get_id()).count();
            assert_eq!(on_here, 1, "car must be registered exactly once, on its own road");
            let mut elsewhere = 0;
            for (_, road) in graph.get_roads() {
                if road.id != car.current_road {
                    elsewhere += road.vehicles_on.iter().filter(|&&c| c == car.get_id()).count();
                }
            }
            assert_eq!(elsewhere, 0);
        }
    }

    // everybody eventually arrives at the destination road's end
    for car in cars.iter() {
        assert_eq!(car.current_road, RoadID(3));
        assert_eq!(car.position, Vec2::new(30, 0));
    }
}

#[test]
fn idempotent_arrival() {
    let a = node(1, 0, 0);
    let b = node(2, 10, 0);
    let r1 = road_with_points(1, a, b, vec![Vec2::new(0, 0), Vec2::new(10, 0)]);
    let mut graph = RoadGraph::new(Some(vec![r1]), Some(vec![a, b]));
    let mut car = Car::new_on_road_with_offset(CarID(4), RoadID(1), &mut graph, 5, NodeID(2), 0, GRAY);

    car.move_car_to_destination(&mut graph, 1, false);
    car.move_car_to_destination(&mut graph, 1, false);
    assert_eq!(car.position, Vec2::new(10, 0));
    assert_eq!(car.current_road, RoadID(1));
    assert!(car.get_path().is_empty());

    for _ in 0..5 {
        car.move_car_to_destination(&mut graph, 1, false);
        assert_eq!(car.position, Vec2::new(10, 0));
        assert_eq!(car.current_road, RoadID(1));
        assert_eq!(car.segment_index, 1);
        assert!(car.get_path().is_empty());
    }
}

#[test]
fn no_path_duplication() {
    let a = node(1, 0, 0);
    let b = node(2, 10, 0);
    let c = node(3, 20, 0);
    let d = node(4, 30, 0);
    let r1 = road_with_points(1, a, b, vec![Vec2::new(0, 0), Vec2::new(10, 0)]);
    let r2 = road_with_points(2, b, c, vec![Vec2::new(10, 0), Vec2::new(20, 0)]);
    let r3 = road_with_points(3, c, d, vec![Vec2::new(20, 0), Vec2::new(30, 0)]);
    let mut graph = RoadGraph::new(Some(vec![r1, r2, r3]), Some(vec![a, b, c, d]));
    let mut car = Car::new_on_road_with_offset(CarID(2), RoadID(1), &mut graph, 5, NodeID(4), 0, GRAY);

    for _ in 0..30 {
        car.move_car_to_destination(&mut graph, 1, false);
        let path = car.get_path();
        if let Some(first) = path.first() {
            assert_ne!(*first, car.current_road);
        }
        for w in path.windows(2) {
            assert_ne!(w[0], w[1]);
        }
    }
}

#[test]
fn corrupted_route_is_rejected() {
    // the two roads chain by node id, but the stored positions disagree: the
    // second road starts nowhere near where the first one ends
    let a = node(1, 0, 0);
    let b = node(2, 10, 0);
    let b_far = Node::new_node(NodeID(2), Vec2::new(500, 500));
    let c = node(3, 500, 510);
    let r1 = road_with_points(1, a, b, vec![Vec2::new(0, 0), Vec2::new(10, 0)]);
    let r2 = road_with_points(2, b_far, c, vec![Vec2::new(500, 500), Vec2::new(500, 510)]);
    let mut graph = RoadGraph::new(Some(vec![r1, r2]), Some(vec![a, b, c]));
    let mut car = Car::new_on_road_with_offset(CarID(3), RoadID(1), &mut graph, 5, NodeID(3), 0, GRAY);

    car.move_car_to_destination(&mut graph, 1, false); // (5,0)
    car.move_car_to_destination(&mut graph, 1, false); // finish road 1; route; reject hand-off
    assert_eq!(car.current_road, RoadID(1), "the transition must be aborted");
    assert_eq!(car.position, Vec2::new(10, 0));
    assert!(car.get_path().is_empty(), "the corrupted plan must be dropped");
    // the occupancies were left untouched
    assert_eq!(graph.lookup_road(RoadID(1)).unwrap().vehicles_on, vec![CarID(3)]);
    assert!(graph.lookup_road(RoadID(2)).unwrap().vehicles_on.is_empty());
}

#[test]
fn spawn_car_registers_and_reports() {
    let a = node(1, 0, 0);
    let b = node(2, 10, 0);
    let r1 = road_with_points(1, a, b, vec![Vec2::new(0, 0), Vec2::new(10, 0)]);
    let mut graph = RoadGraph::new(Some(vec![r1]), Some(vec![a, b]));
    let id = graph.spawn_car(RoadID(1), 5, NodeID(2));
    assert!(1 <= id.0 && id.0 < 1000);
    assert!(graph.get_cars().contains_key(&id.0));
    let car = &graph.get_cars()[&id.0];
    assert_eq!(car.current_road, RoadID(1));
    assert_eq!(car.velocity, 5);
    assert_eq!(car.destination, NodeID(2));
    assert_eq!(graph.lookup_road(RoadID(1)).unwrap().vehicles_on, vec![id]);
}

#[test]
fn random_spawn_offset_stays_in_first_segment() {
    let a = node(1, 0, 0);
    let b = node(2, 10, 0);
    let r1 = road_with_points(1, a, b, vec![Vec2::new(0, 0), Vec2::new(10, 0)]);
    let mut graph = RoadGraph::new(Some(vec![r1]), Some(vec![a, b]));
    for i in 0..20 {
        let car = Car::new_on_road(Some(CarID(50 + i)), RoadID(1), &mut graph, 5, NodeID(2));
        assert!(0 <= car.position.x && car.position.x < 10);
        assert_eq!(car.position.y, 0);
        assert_eq!(car.segment_index, 0);
        assert_eq!(car.acceleration, Vec2::new(0, 0));
        assert_eq!(car.get_direction(), Vec2::new(10, 0));
    }
}
