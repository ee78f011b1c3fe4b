use peregrine::fixed::{FixedNum, FixedVec2};
use peregrine::flow_field::FlowField;
use peregrine::pathfinding::graph::HierarchicalGraph;
use peregrine::pathfinding::region_decomposition::{get_region_id, world_to_cluster_local};
use peregrine::pathfinding::cluster::Cluster;
use peregrine::pathfinding::region_connectivity::build_local_routing_table;
use peregrine::pathfinding::types::{ClusterIslandId, Direction, IslandId, LineSegment, Portal, Rect, Region, RegionId, RegionPortal, CLUSTER_SIZE, NO_PATH};
use std::collections::HashSet;

fn fnum(v: f64) -> FixedNum {
    FixedNum::from_bits((v * 65536.0) as i64)
}

fn to_f32(n: FixedNum) -> f32 {
    n.bits as f32 / 65536.0
}

fn create_test_flowfield(width: usize, height: usize) -> FlowField {
    let mut ff = FlowField::new(width, height, fnum(1.0), FixedVec2::new(FixedNum::zero(), FixedNum::zero()));
    for y in 0..height {
        for x in 0..width {
            let idx = ff.get_index(x, y);
            ff.cost_field[idx] = 1;
        }
    }
    ff
}

fn add_wall(ff: &mut FlowField, x: usize, y: usize, width: usize, height: usize) {
    for dy in 0..height {
        for dx in 0..width {
            let idx = ff.get_index(x + dx, y + dy);
            ff.cost_field[idx] = 255;
        }
    }
}

fn built(ff: &FlowField) -> HierarchicalGraph {
    let mut graph = HierarchicalGraph::default();
    graph.build_graph(ff, false);
    graph
}

fn next_cluster_after(graph: &HierarchicalGraph, current: ClusterIslandId, portal_id: usize) -> (usize, usize) {
    let mut next_cluster = current.cluster;
    if portal_id < graph.portal_connections.len() {
        for &(other_portal_id, _cost) in graph.portal_connections[portal_id].iter() {
            if let Some(other_portal) = graph.portals.get(other_portal_id) {
                if other_portal.cluster != current.cluster {
                    next_cluster = other_portal.cluster;
                    break;
                }
            }
        }
    }
    next_cluster
}

fn get_first_portal_toward_goal(
    graph: &HierarchicalGraph,
    start_cluster: (usize, usize),
    start_island: IslandId,
    goal_cluster: (usize, usize),
    goal_island: IslandId,
) -> Option<(usize, &Portal)> {
    let start = ClusterIslandId::new(start_cluster, start_island);
    let goal = ClusterIslandId::new(goal_cluster, goal_island);
    let portal_id = graph.get_next_portal_for_island(start, goal)?;
    let portal = graph.portals.get(portal_id)?;
    Some((portal_id, portal))
}

fn portal_direction_of(graph: &HierarchicalGraph, cluster: (usize, usize), portal_id: usize) -> Option<Direction> {
    let data = graph.get_cluster(cluster.0, cluster.1).unwrap();
    for direction in Direction::all() {
        if data.neighbor_portal(0, direction.as_index()) == Some(portal_id) {
            return Some(direction);
        }
    }
    None
}

#[test]
fn test_direction_mapping_consistency() {
    let ff = create_test_flowfield(50, 50);
    let graph = built(&ff);
    assert!(graph.portals.len() > 0, "No portals created");
    let cluster_00 = graph.get_cluster(0, 0).expect("Cluster (0,0) should exist");
    let east = cluster_00.neighbor_portal(0, Direction::East.as_index());
    let north = cluster_00.neighbor_portal(0, Direction::North.as_index());
    assert!(east.is_some(), "Cluster (0,0) should have portal to East (1,0)");
    assert!(north.is_some(), "Cluster (0,0) should have portal to North (0,1)");
    if let Some(east_portal_id) = east {
        let portal = graph.portals.get(east_portal_id).expect("Portal should exist");
        assert_eq!(portal.node.x, CLUSTER_SIZE - 1);
    }
    if let Some(north_portal_id) = north {
        let portal = graph.portals.get(north_portal_id).expect("Portal should exist");
        assert_eq!(portal.node.y, CLUSTER_SIZE - 1);
    }
}

#[test]
fn test_simple_path_north() {
    let ff = create_test_flowfield(75, 75);
    let graph = built(&ff);
    assert!(graph.initialized, "Graph should be initialized");
    let start = graph.get_cluster(1, 0).unwrap();
    let north_portal_id = start.neighbor_portal(0, Direction::North.as_index());
    assert!(north_portal_id.is_some(), "Cluster (1,0) should have a North portal to reach (1,1)");
    if let Some(portal_id) = north_portal_id {
        let portal = graph.portals.get(portal_id).unwrap();
        assert_eq!(portal.node.y, CLUSTER_SIZE - 1);
    }
}

#[test]
fn test_simple_path_east() {
    let ff = create_test_flowfield(75, 75);
    let graph = built(&ff);
    let start = graph.get_cluster(0, 1).unwrap();
    let east_portal_id = start.neighbor_portal(0, Direction::East.as_index());
    assert!(east_portal_id.is_some(), "Cluster (0,1) should have an East portal to reach (1,1)");
    if let Some(portal_id) = east_portal_id {
        let portal = graph.portals.get(portal_id).unwrap();
        assert_eq!(portal.node.x, CLUSTER_SIZE - 1);
    }
}

#[test]
fn test_path_around_obstacle_north_side() {
    let mut ff = create_test_flowfield(100, 100);
    add_wall(&mut ff, 10, 35, 80, 10);
    for y in 35..45 {
        let idx = ff.get_index(8, y);
        ff.cost_field[idx] = 1;
    }
    let graph = built(&ff);
    let start_cluster = (1, 1);
    let goal_cluster = (1, 2);
    println!("Start cluster islands: {}", graph.get_cluster(1, 1).map(|c| c.island_count).unwrap_or(0));
    println!("Goal cluster islands: {}", graph.get_cluster(1, 2).map(|c| c.island_count).unwrap_or(0));
    let route_exists = graph
        .get_island_route(ClusterIslandId::new(start_cluster, IslandId(0)), ClusterIslandId::new(goal_cluster, IslandId(0)))
        .is_some();
    println!("Route exists: {}", route_exists);
}

#[test]
fn test_direction_enum_consistency() {
    let ff = create_test_flowfield(75, 75);
    let graph = built(&ff);
    for cy in 0..graph.cluster_rows {
        for cx in 0..graph.cluster_cols {
            let cluster = match graph.get_cluster(cx, cy) {
                Some(c) => c,
                None => continue,
            };
            let cluster_x_tiles = cx * CLUSTER_SIZE;
            let cluster_y_tiles = cy * CLUSTER_SIZE;
            let cluster_max_x = cluster_x_tiles + CLUSTER_SIZE - 1;
            let cluster_max_y = cluster_y_tiles + CLUSTER_SIZE - 1;
            for island_idx in 0..cluster.island_count {
                for direction in Direction::all() {
                    if let Some(portal_id) = cluster.neighbor_portal(island_idx, direction.as_index()) {
                        let portal = graph.portals.get(portal_id).unwrap();
                        match direction {
                            Direction::North => assert_eq!(portal.node.y, cluster_max_y),
                            Direction::South => assert_eq!(portal.node.y, cluster_y_tiles),
                            Direction::East => assert_eq!(portal.node.x, cluster_max_x),
                            Direction::West => assert_eq!(portal.node.x, cluster_x_tiles),
                            Direction::NorthEast => {
                                assert!(portal.node.x + 1 >= cluster_max_x && portal.node.x <= cluster_max_x + 1);
                                assert!(portal.node.y + 1 >= cluster_max_y && portal.node.y <= cluster_max_y + 1);
                            },
                            Direction::NorthWest => {
                                assert!(portal.node.x + 1 >= cluster_x_tiles && portal.node.x <= cluster_x_tiles + 1);
                                assert!(portal.node.y + 1 >= cluster_max_y && portal.node.y <= cluster_max_y + 1);
                            },
                            Direction::SouthEast => {
                                assert!(portal.node.x + 1 >= cluster_max_x && portal.node.x <= cluster_max_x + 1);
                                assert!(portal.node.y + 1 >= cluster_y_tiles && portal.node.y <= cluster_y_tiles + 1);
                            },
                            Direction::SouthWest => {
                                assert!(portal.node.x + 1 >= cluster_x_tiles && portal.node.x <= cluster_x_tiles + 1);
                                assert!(portal.node.y + 1 >= cluster_y_tiles && portal.node.y <= cluster_y_tiles + 1);
                            },
                        }
                    }
                }
            }
        }
    }
}

#[test]
fn test_routing_table_correctness() {
    let ff = create_test_flowfield(100, 100);
    let graph = built(&ff);
    let start = ClusterIslandId::new((0, 0), IslandId(0));
    let goal = ClusterIslandId::new((3, 3), IslandId(0));
    let mut current = start;
    let mut visited = HashSet::new();
    let max_hops = 20;
    for _hop in 0..max_hops {
        if current == goal {
            return;
        }
        if visited.contains(&(current.cluster, current.island.0)) {
            panic!("Routing loop detected at {:?}", current);
        }
        visited.insert((current.cluster, current.island.0));
        let next_portal_id = graph
            .get_next_portal_for_island(current, goal)
            .expect(&format!("No route from {:?} to {:?}", current, goal));
        let next_cluster = next_cluster_after(&graph, current, next_portal_id);
        let current_manhattan = (current.cluster.0 as i32 - goal.cluster.0 as i32).abs()
            + (current.cluster.1 as i32 - goal.cluster.1 as i32).abs();
        let next_manhattan = (next_cluster.0 as i32 - goal.cluster.0 as i32).abs()
            + (next_cluster.1 as i32 - goal.cluster.1 as i32).abs();
        assert!(next_manhattan <= current_manhattan);
        current = ClusterIslandId::new(next_cluster, IslandId(0));
    }
    panic!("Failed to reach goal in {} hops", max_hops);
}

#[test]
fn test_intra_cluster_routing() {
    let mut ff = create_test_flowfield(50, 50);
    add_wall(&mut ff, 10, 10, 2, 10);
    let graph = built(&ff);
    let cluster = graph.get_cluster(0, 0).expect("Cluster (0,0) should exist");
    if cluster.region_count > 1 {
        for i in 0..cluster.region_count {
            for j in 0..cluster.region_count {
                let next_region = cluster.route(i, j);
                if i == j {
                    assert_eq!(next_region, i as u8);
                } else if next_region != NO_PATH {
                    assert!(next_region < cluster.region_count as u8);
                }
            }
        }
    }
}

#[test]
fn test_goal_island_detection() {
    let mut ff = create_test_flowfield(100, 100);
    add_wall(&mut ff, 37, 30, 2, 15);
    let graph = built(&ff);
    let cluster = graph.get_cluster(1, 1).expect("Cluster (1,1) should exist");
    let left_pos = FixedVec2::new(fnum(32.5), fnum(37.5));
    let right_pos = FixedVec2::new(fnum(42.5), fnum(37.5));
    let left_local = world_to_cluster_local(left_pos, (1, 1), &ff).expect("Should convert left position to cluster-local");
    let right_local = world_to_cluster_local(right_pos, (1, 1), &ff).expect("Should convert right position to cluster-local");
    let left_region = get_region_id(&cluster.regions, cluster.region_count, left_local);
    let right_region = get_region_id(&cluster.regions, cluster.region_count, right_local);
    if let (Some(lr), Some(rr)) = (left_region, right_region) {
        let left_island = cluster.regions[lr.0 as usize].as_ref().unwrap().island;
        let right_island = cluster.regions[rr.0 as usize].as_ref().unwrap().island;
        assert!(left_island == right_island || left_island != right_island, "Island detection should be deterministic");
    }
}

#[test]
fn test_first_portal_direction_makes_sense() {
    let ff = create_test_flowfield(100, 100);
    let graph = built(&ff);
    let cases = [((1, 0), (1, 3), Direction::North), ((0, 1), (3, 1), Direction::East), ((1, 3), (1, 0), Direction::South)];
    for (start_cluster, goal_cluster, expected) in cases {
        if let Some((portal_id, _portal)) = get_first_portal_toward_goal(&graph, start_cluster, IslandId(0), goal_cluster, IslandId(0)) {
            let portal_direction = portal_direction_of(&graph, start_cluster, portal_id);
            assert_eq!(portal_direction, Some(expected));
        }
    }
}

#[test]
fn test_path_length_reasonableness() {
    let ff = create_test_flowfield(100, 100);
    let graph = built(&ff);
    let test_cases = vec![
        ((0, 0), (3, 3), "diagonal"),
        ((0, 0), (0, 3), "straight north"),
        ((0, 0), (3, 0), "straight east"),
        ((2, 2), (0, 0), "southwest"),
    ];
    for (start_cluster, goal_cluster, description) in test_cases {
        let start = ClusterIslandId::new(start_cluster, IslandId(0));
        let goal = ClusterIslandId::new(goal_cluster, IslandId(0));
        let manhattan_dist = ((start_cluster.0 as i32 - goal_cluster.0 as i32).abs()
            + (start_cluster.1 as i32 - goal_cluster.1 as i32).abs()) as usize;
        let mut current = start;
        let mut hops = 0;
        let mut visited = HashSet::new();
        while current != goal && hops < 20 {
            if visited.contains(&(current.cluster, current.island.0)) {
                panic!("Loop detected in path from {:?} to {:?} ({})", start_cluster, goal_cluster, description);
            }
            visited.insert((current.cluster, current.island.0));
            let next_portal_id = match graph.get_next_portal_for_island(current, goal) {
                Some(id) => id,
                None => panic!("No route from {:?} to {:?} ({})", start_cluster, goal_cluster, description),
            };
            let next_cluster = next_cluster_after(&graph, current, next_portal_id);
            current = ClusterIslandId::new(next_cluster, IslandId(0));
            hops += 1;
        }
        assert!(current == goal, "Failed to reach goal for {}", description);
        assert!(hops <= manhattan_dist * 2, "Path too long for {}: {} hops", description, hops);
    }
}

#[test]
fn test_no_opposite_direction_without_obstacles() {
    let ff = create_test_flowfield(150, 150);
    let graph = built(&ff);
    let test_cases = vec![
        ((2, 2), (2, 5), Direction::North, Direction::South),
        ((2, 2), (5, 2), Direction::East, Direction::West),
        ((2, 5), (2, 2), Direction::South, Direction::North),
        ((5, 2), (2, 2), Direction::West, Direction::East),
    ];
    for (start_cluster, goal_cluster, expected_dir, forbidden_dir) in test_cases {
        if let Some((portal_id, _portal)) = get_first_portal_toward_goal(&graph, start_cluster, IslandId(0), goal_cluster, IslandId(0)) {
            let portal_direction = portal_direction_of(&graph, start_cluster, portal_id);
            assert_ne!(portal_direction, Some(forbidden_dir));
            let is_opposite = match expected_dir {
                Direction::North => matches!(portal_direction, Some(Direction::South)),
                Direction::South => matches!(portal_direction, Some(Direction::North)),
                Direction::East => matches!(portal_direction, Some(Direction::West)),
                Direction::West => matches!(portal_direction, Some(Direction::East)),
                _ => false,
            };
            assert!(!is_opposite);
        }
    }
}

#[test]
fn test_obstacle_avoidance_chooses_correct_side() {
    let mut ff = create_test_flowfield(125, 125);
    for y in 0..75 {
        for x in 50..55 {
            let idx = ff.get_index(x, y);
            ff.cost_field[idx] = 255;
        }
    }
    let graph = built(&ff);
    let start_cluster = (1, 3);
    let goal_cluster = (3, 3);
    let mut current = ClusterIslandId::new(start_cluster, IslandId(0));
    let goal = ClusterIslandId::new(goal_cluster, IslandId(0));
    let mut path_clusters = vec![current.cluster];
    let mut visited = HashSet::new();
    while current != goal {
        if visited.contains(&(current.cluster, current.island.0)) {
            panic!("Loop detected when pathing around obstacle");
        }
        visited.insert((current.cluster, current.island.0));
        let next_portal_id = graph.get_next_portal_for_island(current, goal).expect("Should have path around obstacle");
        let next_cluster = next_cluster_after(&graph, current, next_portal_id);
        current = ClusterIslandId::new(next_cluster, IslandId(0));
        path_clusters.push(current.cluster);
        if path_clusters.len() > 20 {
            panic!("Path too long - possible infinite loop");
        }
    }
    let went_south = path_clusters.iter().any(|&(_, y)| y < 2);
    assert!(!went_south, "Path went around the south end: {:?}", path_clusters);
}

#[test]
fn test_goal_island_detection_with_obstacles() {
    let mut ff = create_test_flowfield(100, 100);
    for y in 50..74 {
        for x in 55..57 {
            let idx = ff.get_index(x, y);
            ff.cost_field[idx] = 255;
        }
    }
    let graph = built(&ff);
    let cluster = graph.get_cluster(2, 2).expect("Cluster (2,2) should exist");
    if cluster.island_count > 1 {
        let left_goal = FixedVec2::new(fnum(52.5), fnum(62.5));
        let left_local = world_to_cluster_local(left_goal, (2, 2), &ff).expect("Should convert left goal to cluster-local");
        let left_region = get_region_id(&cluster.regions, cluster.region_count, left_local);
        let right_goal = FixedVec2::new(fnum(65.5), fnum(62.5));
        let right_local = world_to_cluster_local(right_goal, (2, 2), &ff).expect("Should convert right goal to cluster-local");
        let right_region = get_region_id(&cluster.regions, cluster.region_count, right_local);
        assert!(left_region.is_some(), "Left goal failed to find region");
        assert!(right_region.is_some(), "Right goal failed to find region");
        if let (Some(lr), Some(rr)) = (left_region, right_region) {
            let left_island = cluster.regions[lr.0 as usize].as_ref().unwrap().island;
            let right_island = cluster.regions[rr.0 as usize].as_ref().unwrap().island;
            assert_ne!(left_island, right_island);
        }
    } else {
        println!("Wall did not split the cluster into several islands");
    }
}

#[test]
fn test_world_to_cluster_local_conversion() {
    let ff = create_test_flowfield(100, 100);
    let test_cases = vec![
        (25.5, 25.5, (1, 1), 0.5, 0.5, "bottom-left corner"),
        (37.5, 37.5, (1, 1), 12.5, 12.5, "middle"),
        (49.5, 49.5, (1, 1), 24.5, 24.5, "top-right corner"),
        (25.5, 37.5, (1, 1), 0.5, 12.5, "left edge, middle height"),
        (37.5, 25.5, (1, 1), 12.5, 0.5, "bottom edge, middle width"),
    ];
    for (wx, wy, cluster, expected_lx, expected_ly, description) in test_cases {
        let world_pos = FixedVec2::new(fnum(wx), fnum(wy));
        let local = world_to_cluster_local(world_pos, cluster, &ff).expect(&format!("Failed to convert {} to cluster-local", description));
        let lx = to_f32(local.x);
        let ly = to_f32(local.y);
        let tolerance = 0.1;
        assert!((lx - expected_lx).abs() < tolerance, "{} - local_x is {}, expected ~{}", description, lx, expected_lx);
        assert!((ly - expected_ly).abs() < tolerance, "{} - local_y is {}, expected ~{}", description, ly, expected_ly);
    }
}

#[test]
fn test_region_lookup_near_boundaries() {
    let mut ff = create_test_flowfield(100, 100);
    add_wall(&mut ff, 35, 35, 2, 15);
    let graph = built(&ff);
    let cluster = graph.get_cluster(1, 1).expect("Cluster (1,1) should exist");
    let test_positions = vec![
        (33.9, 40.0, "just left of dilated wall"),
        (38.1, 40.0, "just right of dilated wall"),
        (35.0, 40.0, "on wall (should fail or be in obstacle)"),
        (30.0, 40.0, "far left of wall"),
        (42.0, 40.0, "far right of wall"),
    ];
    for (wx, wy, description) in test_positions {
        let world_pos = FixedVec2::new(fnum(wx), fnum(wy));
        if let Some(local) = world_to_cluster_local(world_pos, (1, 1), &ff) {
            let region = get_region_id(&cluster.regions, cluster.region_count, local);
            if !description.contains("on wall") {
                assert!(region.is_some(), "{} at ({}, {}) failed to find region", description, wx, wy);
            }
        }
    }
}

#[test]
fn test_fallback_to_island_zero_scenario() {
    let mut ff = create_test_flowfield(100, 100);
    for y in 60..62 {
        for x in 50..74 {
            let idx = ff.get_index(x, y);
            ff.cost_field[idx] = 255;
        }
    }
    let graph = built(&ff);
    let cluster = graph.get_cluster(2, 2).expect("Cluster (2,2) should exist");
    if cluster.island_count > 1 {
        let mut island_0_centers = Vec::new();
        for i in 0..cluster.region_count {
            if let Some(r) = cluster.regions[i].as_ref() {
                if r.island == IslandId(0) {
                    island_0_centers.push(r.bounds.center());
                }
            }
        }
        if let Some(island_0_center) = island_0_centers.first() {
            let goal_above_wall = FixedVec2::new(fnum(62.0), fnum(67.0));
            let local = world_to_cluster_local(goal_above_wall, (2, 2), &ff).expect("Should convert goal to local");
            let region = get_region_id(&cluster.regions, cluster.region_count, local);
            if let Some(reg_id) = region {
                let actual_island = cluster.regions[reg_id.0 as usize].as_ref().unwrap().island;
                let island_0_y = to_f32(island_0_center.y);
                println!("Goal is in island {:?}; island 0 centre at y={}", actual_island, island_0_y);
            } else {
                panic!("Goal above wall failed to find region");
            }
        }
    }
}

fn unit_point(x: i64, y: i64) -> FixedVec2 {
    FixedVec2::new(FixedNum::from_bits(x * 65536), FixedNum::from_bits(y * 65536))
}

fn edge_of_length(len: i64, next: u8) -> RegionPortal {
    RegionPortal {
        edge: LineSegment { start: unit_point(0, 0), end: unit_point(0, len) },
        center: unit_point(0, len / 2),
        next_region: RegionId(next),
    }
}

fn plain_region(id: u8, portals: Vec<RegionPortal>) -> Region {
    Region {
        id: RegionId(id),
        bounds: Rect { min: unit_point(id as i64, 0), max: unit_point(id as i64 + 1, 1) },
        vertices: Vec::new(),
        island: IslandId(0),
        portals,
        is_dangerous: false,
    }
}

#[test]
fn local_routing_prefers_cheaper_route() {
    // Region 0 reaches region 1 directly across a long edge, or through
    // region 2 across two short ones.
    let mut cluster = Cluster::new((0, 0));
    cluster.regions[0] = Some(plain_region(0, vec![edge_of_length(10, 1), edge_of_length(1, 2)]));
    cluster.regions[1] = Some(plain_region(1, vec![edge_of_length(10, 0), edge_of_length(1, 2)]));
    cluster.regions[2] = Some(plain_region(2, vec![edge_of_length(1, 0), edge_of_length(1, 1)]));
    cluster.region_count = 3;
    build_local_routing_table(&mut cluster);
    assert_eq!(cluster.route(0, 1), 2);
    assert_eq!(cluster.route(1, 0), 2);
    assert_eq!(cluster.route(0, 2), 2);
    assert_eq!(cluster.route(2, 1), 1);
    assert_eq!(cluster.route(0, 0), 0);
    assert_eq!(cluster.route(0, 3), NO_PATH);
}

#[test]
fn local_routing_takes_direct_edge_when_cheaper() {
    let mut cluster = Cluster::new((0, 0));
    cluster.regions[0] = Some(plain_region(0, vec![edge_of_length(1, 1), edge_of_length(1, 2)]));
    cluster.regions[1] = Some(plain_region(1, vec![edge_of_length(1, 0), edge_of_length(5, 2)]));
    cluster.regions[2] = Some(plain_region(2, vec![edge_of_length(1, 0), edge_of_length(5, 1)]));
    cluster.region_count = 3;
    build_local_routing_table(&mut cluster);
    assert_eq!(cluster.route(0, 1), 1);
    assert_eq!(cluster.route(1, 2), 0);
    assert_eq!(cluster.route(2, 1), 0);
}

#[test]
fn graph_build_lists_portals_in_scan_order() {
    let mut ff = FlowField::new(50, 50, fnum(1.0), FixedVec2::new(FixedNum::zero(), FixedNum::zero()));
    ff.set_obstacle(24, 10);
    let mut g = HierarchicalGraph::default();
    g.build_graph_with_regions_sync(&ff);
    assert!(g.initialized);
    assert_eq!(g.cluster_cols, 2);
    assert_eq!(g.cluster_rows, 2);
    assert_eq!(g.portals.len(), 14);
    assert_eq!((g.portals[0].node.x, g.portals[0].node.y), (24, 4));
    assert_eq!((g.portals[0].range_max.x, g.portals[0].range_max.y), (24, 9));
    assert_eq!((g.portals[2].node.x, g.portals[2].node.y), (24, 17));
    assert_eq!((g.portals[2].range_min.x, g.portals[2].range_min.y), (24, 11));
    assert_eq!((g.portals[4].node.x, g.portals[4].node.y), (24, 37));
    assert_eq!((g.portals[6].node.x, g.portals[6].node.y), (12, 24));
}

#[test]
fn island_route_takes_cheaper_diagonal_crossing() {
    // From the south-west cluster to the north-east one, one diagonal
    // crossing costs less than two straight ones.
    let ff = create_test_flowfield(50, 50);
    let mut g = HierarchicalGraph::default();
    g.build_graph_with_regions_sync(&ff);
    let p = g
        .get_island_route(ClusterIslandId::new((0, 0), IslandId(0)), ClusterIslandId::new((1, 1), IslandId(0)))
        .expect("the far cluster can be reached");
    assert_eq!(g.portals[p].cluster, (0, 0));
    let (q, _cost) = g.portal_connections[p][0];
    assert_eq!(g.portals[q].cluster, (1, 1));
}
