//! Hierarchical pathfinding: the map is cut into square clusters, each
//! cluster into convex regions grouped into islands, and clusters are joined
//! by portals along their shared borders.
pub mod region_list;
pub mod types;
pub mod cluster;
pub mod graph;
pub mod region_decomposition;
pub mod region_connectivity;
pub mod island_detection;
pub mod portal_scan;
pub mod island_links;
pub mod island_routing;
pub mod assembly;
pub mod navigation_routing;
pub mod routing_export;
pub mod copies;
pub mod navigation_lookup;
pub mod navigation;
pub mod laws;
