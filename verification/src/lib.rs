//! Core of a road-traffic simulation: a directed road graph with per-road
//! occupancy bookkeeping, a congestion- and direction-aware A* router, and the
//! per-car movement state machine that walks a car along a road's polyline and
//! hands it over to the next road of its planned route.
//!
//! All geometry is integer-valued: positions are [`geom::Vec2`] points with
//! bounded coordinates, distances are Euclidean lengths rounded down
//! ([`geom::dist`]), and congestion weights are kept in thousandths so that
//! every quantity the router and mover compute stays exact machine arithmetic.

pub mod car;
pub mod color;
pub mod entropy;
pub mod geom;
pub mod road;
pub mod router;

pub use car::Car;
pub use car::CarID;
pub use color::mix_colors;
pub use geom::Vec2;
pub use road::GraphError;
pub use road::Node;
pub use road::NodeID;
pub use road::Road;
pub use road::RoadGraph;
pub use road::RoadID;
pub use road::generate_random_nodes;
pub use road::generate_random_roads;
pub use router::a_star;
pub use router::road_weight;
pub use router::valid_route;

